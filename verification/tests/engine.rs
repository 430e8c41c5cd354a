use sdr_pdu::engine::{EngineAction, EngineEvent, TransmissionEngine};

fn start<S>(e: &mut TransmissionEngine<S>) {
    assert!(matches!(e.step(EngineEvent::Start), EngineAction::DisableTx));
    assert!(matches!(e.step(EngineEvent::Completed(false)), EngineAction::AwaitFrame));
}

#[test]
fn engine_enables_then_tunes_then_pushes_then_disables() {
    let mut e: TransmissionEngine<i16> = TransmissionEngine::new();
    start(&mut e);
    let a = e.step(EngineEvent::Frame {
        freq: 145_800_000,
        preamble_iq: vec![1, 2, 3, 4],
        frame_iq: vec![5, 6],
    });
    assert!(matches!(a, EngineAction::EnableTx));
    assert!(matches!(e.step(EngineEvent::Completed(true)), EngineAction::SetFrequency(145_800_000)));
    match e.step(EngineEvent::Completed(true)) {
        EngineAction::PushSamples(samples) => assert_eq!(samples, vec![1, 2, 3, 4, 5, 6]),
        _ => panic!("expected samples"),
    }
    assert!(matches!(e.step(EngineEvent::Completed(true)), EngineAction::DisableTx));
    assert!(matches!(e.step(EngineEvent::Completed(true)), EngineAction::AwaitFrame));
}

#[test]
fn engine_unkeys_without_pushing_when_tuning_fails() {
    let mut e: TransmissionEngine<i8> = TransmissionEngine::new();
    start(&mut e);
    let a = e.step(EngineEvent::Frame { freq: 1, preamble_iq: vec![], frame_iq: vec![9] });
    assert!(matches!(a, EngineAction::EnableTx));
    assert!(matches!(e.step(EngineEvent::Completed(true)), EngineAction::SetFrequency(1)));
    assert!(matches!(e.step(EngineEvent::Completed(false)), EngineAction::DisableTx));
    assert!(matches!(e.step(EngineEvent::Completed(true)), EngineAction::AwaitFrame));
    // The next frame replaces the dropped one.
    assert!(matches!(
        e.step(EngineEvent::Frame { freq: 2, preamble_iq: vec![7], frame_iq: vec![8] }),
        EngineAction::EnableTx
    ));
    assert!(matches!(e.step(EngineEvent::Completed(true)), EngineAction::SetFrequency(2)));
    match e.step(EngineEvent::Completed(true)) {
        EngineAction::PushSamples(samples) => assert_eq!(samples, vec![7, 8]),
        _ => panic!("expected samples"),
    }
}

#[test]
fn engine_goes_on_after_failed_enable_and_push() {
    let mut e: TransmissionEngine<i16> = TransmissionEngine::new();
    start(&mut e);
    e.step(EngineEvent::Frame { freq: 5, preamble_iq: vec![0], frame_iq: vec![1] });
    assert!(matches!(e.step(EngineEvent::Completed(false)), EngineAction::SetFrequency(5)));
    assert!(matches!(e.step(EngineEvent::Completed(true)), EngineAction::PushSamples(_)));
    assert!(matches!(e.step(EngineEvent::Completed(false)), EngineAction::DisableTx));
    assert!(matches!(e.step(EngineEvent::Completed(false)), EngineAction::AwaitFrame));
}

#[test]
fn engine_sends_queued_frames_in_order() {
    let mut e: TransmissionEngine<i8> = TransmissionEngine::new();
    start(&mut e);
    let frames: Vec<(u64, Vec<i8>, Vec<i8>)> =
        vec![(100, vec![1], vec![2, 3]), (200, vec![1], vec![4]), (300, vec![1], vec![])];
    for (freq, pre, body) in frames {
        let expected: Vec<i8> = pre.iter().chain(body.iter()).copied().collect();
        assert!(matches!(
            e.step(EngineEvent::Frame { freq, preamble_iq: pre, frame_iq: body }),
            EngineAction::EnableTx
        ));
        match e.step(EngineEvent::Completed(true)) {
            EngineAction::SetFrequency(f) => assert_eq!(f, freq),
            _ => panic!("expected tuning"),
        }
        match e.step(EngineEvent::Completed(true)) {
            EngineAction::PushSamples(samples) => assert_eq!(samples, expected),
            _ => panic!("expected samples"),
        }
        assert!(matches!(e.step(EngineEvent::Completed(true)), EngineAction::DisableTx));
        assert!(matches!(e.step(EngineEvent::Completed(true)), EngineAction::AwaitFrame));
    }
}
