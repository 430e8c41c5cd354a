use std::sync::atomic::{AtomicU64, Ordering};
use std::sync::Arc;

use sdr_pdu::cat::{cat_reply, parse_cat_command_text, CatCommand, CatServer};

#[test]
fn test_cat_freq_update() {
    let freq = Arc::new(AtomicU64::new(144000000));
    let server = CatServer::new(freq.clone());
    let (reply, stored) = server.handle_input(b"F 145000000\n");
    assert_eq!(reply, b"RPRT 0\n".to_vec());
    assert_eq!(stored, vec![145000000]);
    assert_eq!(freq.load(Ordering::SeqCst), 145000000);
}

#[test]
fn cat_get_and_errors() {
    let freq = Arc::new(AtomicU64::new(144000000));
    let server = CatServer::new(freq.clone());
    assert_eq!(server.handle_input(b"f\n").0, b"144000000\n".to_vec());
    assert_eq!(server.handle_input(b"F abc\n").0, b"RPRT 1\n".to_vec());
    assert_eq!(server.handle_input(b"F\n").0, Vec::<u8>::new());
    assert_eq!(server.handle_input(b"T 1\n").0, b"RPRT 0\n".to_vec());
    assert_eq!(server.handle_input(b"\n\n   \n").0, Vec::<u8>::new());
    assert_eq!(freq.load(Ordering::SeqCst), 144000000);
}

#[test]
fn cat_several_lines() {
    let freq = Arc::new(AtomicU64::new(1));
    let server = CatServer::new(freq.clone());
    let reply = server.handle_input(b"F +437000000\r\nf\n  f   extra \nq").0;
    assert_eq!(reply, b"RPRT 0\n437000000\n437000000\nRPRT 0\n".to_vec());
    assert_eq!(freq.load(Ordering::SeqCst), 437000000);
}

#[test]
fn cat_frequency_limits() {
    let freq = Arc::new(AtomicU64::new(1));
    let server = CatServer::new(freq.clone());
    assert_eq!(server.handle_input(b"F 18446744073709551615").0, b"RPRT 0\n".to_vec());
    assert_eq!(freq.load(Ordering::SeqCst), u64::MAX);
    assert_eq!(server.handle_input(b"F 18446744073709551616").0, b"RPRT 1\n".to_vec());
    assert_eq!(server.handle_input(b"F -5").0, b"RPRT 1\n".to_vec());
    assert_eq!(server.handle_input(b"F +").0, b"RPRT 1\n".to_vec());
    assert_eq!(server.handle_input(b"F 0").0, b"RPRT 0\n".to_vec());
    assert_eq!(server.handle_input(b"f").0, b"0\n".to_vec());
}

#[test]
fn cat_unicode_whitespace_and_invalid_bytes() {
    let freq = Arc::new(AtomicU64::new(7));
    let server = CatServer::new(freq.clone());
    // U+00A0 separates words like a space does.
    assert_eq!(server.handle_input("F\u{a0}12".as_bytes()).0, b"RPRT 0\n".to_vec());
    assert_eq!(freq.load(Ordering::SeqCst), 12);
    // An invalid byte makes the word unreadable.
    assert_eq!(server.handle_input(b"F 1\xff2").0, b"RPRT 1\n".to_vec());
    assert_eq!(freq.load(Ordering::SeqCst), 12);
}

#[test]
fn cat_commands_and_replies() {
    let text: Vec<char> = "F 100\nf\nF\nF x\nz".chars().collect();
    assert_eq!(
        parse_cat_command_text(&text),
        vec![
            CatCommand::SetFrequency(100),
            CatCommand::GetFrequency,
            CatCommand::MissingFrequency,
            CatCommand::InvalidFrequency,
            CatCommand::Other
        ]
    );
    assert_eq!(cat_reply(CatCommand::GetFrequency, 42), (None, b"42\n".to_vec()));
    assert_eq!(cat_reply(CatCommand::SetFrequency(9), 42), (Some(9), b"RPRT 0\n".to_vec()));
}

#[test]
fn cat_reply_reads_back() {
    let freq = Arc::new(AtomicU64::new(0));
    let server = CatServer::new(freq.clone());
    for &f in &[0u64, 9, 10, 144_390_000, u64::MAX] {
        let _ = server.handle_input(format!("F {}", f).as_bytes());
        let reply = server.handle_input(b"f").0;
        let text = String::from_utf8(reply).unwrap();
        assert_eq!(text, format!("{}\n", f));
        let _ = server.handle_input(b"F 1");
        let mut again = b"F ".to_vec();
        again.extend_from_slice(text.as_bytes());
        assert_eq!(server.handle_input(&again).0, b"RPRT 0\n".to_vec());
        assert_eq!(freq.load(Ordering::SeqCst), f);
    }
}

#[test]
fn cat_session_ends_on_last_valid_set() {
    let freq = Arc::new(AtomicU64::new(100));
    let server = CatServer::new(freq.clone());
    let (reply, stored) = server.handle_input(b"F 200\nf\nF x\nF\nF 300\nT\nf\nF -1\n");
    assert_eq!(stored, vec![200, 300]);
    assert_eq!(reply, b"RPRT 0\n200\nRPRT 1\nRPRT 0\nRPRT 0\n300\nRPRT 1\n".to_vec());
    assert_eq!(freq.load(Ordering::SeqCst), 300);

    let untouched = Arc::new(AtomicU64::new(7));
    let server = CatServer::new(untouched.clone());
    let (reply, stored) = server.handle_input(b"F bad\nf\nq\n");
    assert_eq!(reply, b"RPRT 1\n7\nRPRT 0\n".to_vec());
    assert!(stored.is_empty());
    assert_eq!(untouched.load(Ordering::SeqCst), 7);
}

#[test]
fn cat_set_then_read_back_in_one_chunk() {
    let freq = Arc::new(AtomicU64::new(144000000));
    let server = CatServer::new(freq.clone());
    let (reply, stored) = server.handle_input(b"F 145000000\nf\n");
    assert_eq!(reply, b"RPRT 0\n145000000\n".to_vec());
    assert_eq!(stored, vec![145000000]);
    assert_eq!(freq.load(Ordering::SeqCst), 145000000);
}
