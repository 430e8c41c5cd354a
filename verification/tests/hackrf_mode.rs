use sdr_pdu::hackrf::mode::{mode_after, plan, HackRfMode, HackRfOp, HackRfPlan, HackRfRefusal};

#[test]
fn hackrf_idle_device_is_tuned_and_started() {
    assert_eq!(plan(HackRfMode::Idle, HackRfOp::SetFrequency), HackRfPlan::Call);
    assert_eq!(plan(HackRfMode::Idle, HackRfOp::EnableTx), HackRfPlan::Call);
    assert_eq!(plan(HackRfMode::Idle, HackRfOp::DisableTx), HackRfPlan::Skip);
    assert_eq!(
        plan(HackRfMode::Idle, HackRfOp::PushSamples),
        HackRfPlan::Refuse(HackRfRefusal::NotInTx)
    );
    assert_eq!(mode_after(HackRfMode::Idle, HackRfOp::EnableTx, true), HackRfMode::Tx);
    assert_eq!(mode_after(HackRfMode::Idle, HackRfOp::EnableTx, false), HackRfMode::Invalid);
    assert_eq!(mode_after(HackRfMode::Idle, HackRfOp::SetFrequency, false), HackRfMode::Idle);
}

#[test]
fn hackrf_transmitting_device_takes_samples_only() {
    assert_eq!(plan(HackRfMode::Tx, HackRfOp::SetFrequency), HackRfPlan::Skip);
    assert_eq!(plan(HackRfMode::Tx, HackRfOp::EnableTx), HackRfPlan::Skip);
    assert_eq!(plan(HackRfMode::Tx, HackRfOp::PushSamples), HackRfPlan::Call);
    assert_eq!(plan(HackRfMode::Tx, HackRfOp::DisableTx), HackRfPlan::Call);
    assert_eq!(mode_after(HackRfMode::Tx, HackRfOp::DisableTx, true), HackRfMode::Idle);
    assert_eq!(mode_after(HackRfMode::Tx, HackRfOp::DisableTx, false), HackRfMode::Invalid);
    assert_eq!(mode_after(HackRfMode::Tx, HackRfOp::PushSamples, false), HackRfMode::Tx);
}

#[test]
fn hackrf_lost_device_refuses_everything() {
    for op in [HackRfOp::SetFrequency, HackRfOp::EnableTx, HackRfOp::DisableTx] {
        assert_eq!(plan(HackRfMode::Invalid, op), HackRfPlan::Refuse(HackRfRefusal::InvalidState));
        assert_eq!(mode_after(HackRfMode::Invalid, op, true), HackRfMode::Invalid);
    }
    assert_eq!(
        plan(HackRfMode::Invalid, HackRfOp::PushSamples),
        HackRfPlan::Refuse(HackRfRefusal::NotInTx)
    );
}
