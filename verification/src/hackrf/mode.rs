//! The HackRF device's modes and what each operation does in each: the
//! device is either idle (it can be tuned), transmitting (it takes
//! samples), or lost after a failed switch between the two.

use vstd::prelude::*;

verus! {

/// The device's mode.
#[derive(Clone, Copy, Debug, PartialEq, Eq, Structural)]
pub enum HackRfMode {
    /// Receiving nothing and sending nothing; the carrier can be set.
    Idle,
    /// Transmitting: samples can be queued.
    Tx,
    /// A switch between the two failed and the device was lost.
    Invalid,
}

/// An operation asked of the device.
#[derive(Clone, Copy, Debug, PartialEq, Eq, Structural)]
pub enum HackRfOp {
    SetFrequency,
    EnableTx,
    PushSamples,
    DisableTx,
}

/// Why an operation fails without reaching the device.
#[derive(Clone, Copy, Debug, PartialEq, Eq, Structural)]
pub enum HackRfRefusal {
    /// The device was lost.
    InvalidState,
    /// Samples were pushed while not transmitting.
    NotInTx,
}

/// What to do for an operation.
#[derive(Clone, Copy, Debug, PartialEq, Eq, Structural)]
pub enum HackRfPlan {
    /// Make the device call.
    Call,
    /// Succeed without a call: the device is already where the operation
    /// would take it, or (tuning while transmitting) cannot be tuned and is
    /// left as it is.
    Skip,
    /// Fail without a call.
    Refuse(HackRfRefusal),
}

/// What each operation does in each mode.
pub open spec fn plan_of(mode: HackRfMode, op: HackRfOp) -> HackRfPlan {
    match (mode, op) {
        (HackRfMode::Invalid, HackRfOp::PushSamples) => HackRfPlan::Refuse(HackRfRefusal::NotInTx),
        (HackRfMode::Invalid, _) => HackRfPlan::Refuse(HackRfRefusal::InvalidState),
        (HackRfMode::Idle, HackRfOp::SetFrequency) => HackRfPlan::Call,
        (HackRfMode::Idle, HackRfOp::EnableTx) => HackRfPlan::Call,
        (HackRfMode::Idle, HackRfOp::PushSamples) => HackRfPlan::Refuse(HackRfRefusal::NotInTx),
        (HackRfMode::Idle, HackRfOp::DisableTx) => HackRfPlan::Skip,
        (HackRfMode::Tx, HackRfOp::SetFrequency) => HackRfPlan::Skip,
        (HackRfMode::Tx, HackRfOp::EnableTx) => HackRfPlan::Skip,
        (HackRfMode::Tx, HackRfOp::PushSamples) => HackRfPlan::Call,
        (HackRfMode::Tx, HackRfOp::DisableTx) => HackRfPlan::Call,
    }
}

/// The mode after an operation, given whether its device call (if one was
/// made) succeeded: starting or stopping transmission switches the mode, or
/// loses the device when it fails; nothing else changes the mode.
pub open spec fn mode_after_of(mode: HackRfMode, op: HackRfOp, call_ok: bool) -> HackRfMode {
    match (mode, op) {
        (HackRfMode::Idle, HackRfOp::EnableTx) => if call_ok {
            HackRfMode::Tx
        } else {
            HackRfMode::Invalid
        },
        (HackRfMode::Tx, HackRfOp::DisableTx) => if call_ok {
            HackRfMode::Idle
        } else {
            HackRfMode::Invalid
        },
        _ => mode,
    }
}

/// What to do for `op` in `mode`.
pub fn plan(mode: HackRfMode, op: HackRfOp) -> (p: HackRfPlan)
    ensures
        p == plan_of(mode, op),
{
    match mode {
        HackRfMode::Invalid => match op {
            HackRfOp::PushSamples => HackRfPlan::Refuse(HackRfRefusal::NotInTx),
            _ => HackRfPlan::Refuse(HackRfRefusal::InvalidState),
        },
        HackRfMode::Idle => match op {
            HackRfOp::SetFrequency => HackRfPlan::Call,
            HackRfOp::EnableTx => HackRfPlan::Call,
            HackRfOp::PushSamples => HackRfPlan::Refuse(HackRfRefusal::NotInTx),
            HackRfOp::DisableTx => HackRfPlan::Skip,
        },
        HackRfMode::Tx => match op {
            HackRfOp::PushSamples => HackRfPlan::Call,
            HackRfOp::DisableTx => HackRfPlan::Call,
            _ => HackRfPlan::Skip,
        },
    }
}

/// The mode after `op` in `mode`, its device call having succeeded or not.
pub fn mode_after(mode: HackRfMode, op: HackRfOp, call_ok: bool) -> (m: HackRfMode)
    ensures
        m == mode_after_of(mode, op, call_ok),
{
    match (mode, op) {
        (HackRfMode::Idle, HackRfOp::EnableTx) => if call_ok {
            HackRfMode::Tx
        } else {
            HackRfMode::Invalid
        },
        (HackRfMode::Tx, HackRfOp::DisableTx) => if call_ok {
            HackRfMode::Idle
        } else {
            HackRfMode::Invalid
        },
        _ => mode,
    }
}

/// Samples reach the device only while it transmits, and the carrier is set
/// only while it is idle.
pub proof fn lemma_calls_need_mode(mode: HackRfMode)
    ensures
        plan_of(mode, HackRfOp::PushSamples) == HackRfPlan::Call <==> mode == HackRfMode::Tx,
        plan_of(mode, HackRfOp::SetFrequency) == HackRfPlan::Call <==> mode == HackRfMode::Idle,
{
}

/// A lost device stays lost, and every operation on it fails without a
/// device call.
pub proof fn lemma_invalid_is_final(op: HackRfOp, call_ok: bool)
    ensures
        plan_of(HackRfMode::Invalid, op) is Refuse,
        mode_after_of(HackRfMode::Invalid, op, call_ok) == HackRfMode::Invalid,
{
}

/// Enabling then disabling, each call succeeding, brings an idle device back
/// to idle, and enabling or disabling twice is the same as once.
pub proof fn lemma_enable_disable(mode: HackRfMode)
    ensures
        mode_after_of(
            mode_after_of(HackRfMode::Idle, HackRfOp::EnableTx, true),
            HackRfOp::DisableTx,
            true,
        ) == HackRfMode::Idle,
        mode != HackRfMode::Invalid ==> mode_after_of(
            mode_after_of(mode, HackRfOp::EnableTx, true),
            HackRfOp::EnableTx,
            true,
        ) == mode_after_of(mode, HackRfOp::EnableTx, true),
        mode != HackRfMode::Invalid ==> mode_after_of(
            mode_after_of(mode, HackRfOp::DisableTx, true),
            HackRfOp::DisableTx,
            true,
        ) == mode_after_of(mode, HackRfOp::DisableTx, true),
{
}

/// Only starting and stopping transmission change the mode: tuning and
/// pushing samples leave it as it was, whatever their outcome, and a mode
/// change is always a switch between idle and transmitting or the loss of
/// the device.
pub proof fn lemma_only_switches_change_mode(mode: HackRfMode, op: HackRfOp, call_ok: bool)
    ensures
        mode_after_of(mode, HackRfOp::SetFrequency, call_ok) == mode,
        mode_after_of(mode, HackRfOp::PushSamples, call_ok) == mode,
        mode_after_of(mode, op, call_ok) != mode ==> {
            ||| op == HackRfOp::EnableTx && mode == HackRfMode::Idle
            ||| op == HackRfOp::DisableTx && mode == HackRfMode::Tx
        },
        mode_after_of(mode, op, call_ok) == HackRfMode::Tx ==> mode == HackRfMode::Tx || (op
            == HackRfOp::EnableTx && call_ok),
{
}

} // verus!
