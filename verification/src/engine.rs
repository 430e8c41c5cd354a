//! The transmission engine's decisions, as a state machine: the caller
//! performs each action on the radio (or waits for a frame) and reports
//! back with the next event.
//!
//! For each frame: key the transmitter, tune it to the frequency read when
//! the frame was taken, push the preamble, syncword and frame samples, and
//! unkey. A failed tuning skips the push, but the transmitter is unkeyed
//! all the same; the outcome of keying, pushing and unkeying changes
//! nothing in the sequence.

use vstd::prelude::*;

verus! {

/// Where the engine stands: the action it last asked for tells which.
#[derive(Clone, Copy, Debug, PartialEq, Eq, Structural)]
pub enum EnginePhase {
    /// Not started.
    Starting,
    /// Silencing the transmitter once at start-up.
    InitialDisable,
    /// Waiting for a frame.
    Idle,
    /// Enabling the transmitter.
    Keying,
    /// Setting the carrier frequency.
    Tuning,
    /// Pushing samples.
    Pushing,
    /// Disabling the transmitter.
    Unkeying,
}

/// What the caller reports.
pub enum EngineEvent<S> {
    /// The engine is to start.
    Start,
    /// A frame to send at `freq` Hz: the samples of the preamble and
    /// syncword, and those of the modulated frame.
    Frame { freq: u64, preamble_iq: Vec<S>, frame_iq: Vec<S> },
    /// The last action finished, successfully or not.
    Completed(bool),
}

/// What the caller is asked to do next.
pub enum EngineAction<S> {
    DisableTx,
    AwaitFrame,
    SetFrequency(u64),
    EnableTx,
    PushSamples(Vec<S>),
}

/// An event as a mathematical value.
pub enum EventModel<S> {
    Start,
    Frame(u64, Seq<S>, Seq<S>),
    Completed(bool),
}

/// An action as a mathematical value.
pub enum ActionModel<S> {
    DisableTx,
    AwaitFrame,
    SetFrequency(u64),
    EnableTx,
    PushSamples(Seq<S>),
}

/// The engine's state: its phase, the frequency of the frame in flight and
/// the samples still to be pushed for it.
pub struct EngineState<S> {
    pub phase: EnginePhase,
    pub freq: u64,
    pub pending: Seq<S>,
}

pub open spec fn event_model<S>(e: EngineEvent<S>) -> EventModel<S> {
    match e {
        EngineEvent::Start => EventModel::Start,
        EngineEvent::Frame { freq, preamble_iq, frame_iq } => EventModel::Frame(
            freq,
            preamble_iq@,
            frame_iq@,
        ),
        EngineEvent::Completed(ok) => EventModel::Completed(ok),
    }
}

pub open spec fn action_model<S>(a: EngineAction<S>) -> ActionModel<S> {
    match a {
        EngineAction::DisableTx => ActionModel::DisableTx,
        EngineAction::AwaitFrame => ActionModel::AwaitFrame,
        EngineAction::SetFrequency(f) => ActionModel::SetFrequency(f),
        EngineAction::EnableTx => ActionModel::EnableTx,
        EngineAction::PushSamples(v) => ActionModel::PushSamples(v@),
    }
}

/// The state an engine starts in.
pub open spec fn initial_state<S>() -> EngineState<S> {
    EngineState { phase: EnginePhase::Starting, freq: 0, pending: Seq::empty() }
}

/// One decision: the state and the action that follow an event.
pub open spec fn model_step<S>(st: EngineState<S>, e: EventModel<S>) -> (
    EngineState<S>,
    ActionModel<S>,
) {
    match e {
        EventModel::Start => (
            EngineState { phase: EnginePhase::InitialDisable, ..st },
            ActionModel::DisableTx,
        ),
        EventModel::Frame(freq, preamble, frame) => (
            EngineState { phase: EnginePhase::Keying, freq, pending: preamble + frame },
            ActionModel::EnableTx,
        ),
        EventModel::Completed(ok) => match st.phase {
            EnginePhase::Keying => (
                EngineState { phase: EnginePhase::Tuning, ..st },
                ActionModel::SetFrequency(st.freq),
            ),
            EnginePhase::Tuning => if ok {
                (
                    EngineState { phase: EnginePhase::Pushing, freq: st.freq, pending: Seq::empty() },
                    ActionModel::PushSamples(st.pending),
                )
            } else {
                (EngineState { phase: EnginePhase::Unkeying, ..st }, ActionModel::DisableTx)
            },
            EnginePhase::Pushing => (
                EngineState { phase: EnginePhase::Unkeying, ..st },
                ActionModel::DisableTx,
            ),
            _ => (EngineState { phase: EnginePhase::Idle, ..st }, ActionModel::AwaitFrame),
        },
    }
}

/// The states and actions that a sequence of events leads to.
pub open spec fn run<S>(st: EngineState<S>, events: Seq<EventModel<S>>) -> (
    EngineState<S>,
    Seq<ActionModel<S>>,
)
    decreases events.len(),
{
    if events.len() == 0 {
        (st, Seq::empty())
    } else {
        let (next, a) = model_step(st, events[0]);
        let (last, rest) = run(next, events.drop_first());
        (last, seq![a] + rest)
    }
}

/// The events the engine waits for in each phase: `Start` first, a frame
/// when idle, and the completion of the last action otherwise.
pub open spec fn expects<S>(p: EnginePhase, e: EventModel<S>) -> bool {
    match p {
        EnginePhase::Starting => e is Start,
        EnginePhase::Idle => e is Frame,
        _ => e is Completed,
    }
}

/// The phases in which the transmitter may be keyed: enabling was asked for
/// and disabling was not yet.
pub open spec fn keyed(p: EnginePhase) -> bool {
    p == EnginePhase::Keying || p == EnginePhase::Tuning || p == EnginePhase::Pushing
}

/// The events of one frame that goes through: the frame, then the
/// completions of keying, tuning, pushing and unkeying, all successful.
pub open spec fn frame_events<S>(freq: u64, preamble: Seq<S>, frame: Seq<S>) -> Seq<EventModel<S>> {
    seq![
        EventModel::Frame(freq, preamble, frame),
        EventModel::Completed(true),
        EventModel::Completed(true),
        EventModel::Completed(true),
        EventModel::Completed(true),
    ]
}

/// The actions asked for one frame: key, tune to its frequency, push its
/// preamble and its own samples, unkey, and wait for the next frame.
pub open spec fn frame_actions<S>(freq: u64, preamble: Seq<S>, frame: Seq<S>) -> Seq<ActionModel<S>> {
    seq![
        ActionModel::EnableTx,
        ActionModel::SetFrequency(freq),
        ActionModel::PushSamples(preamble + frame),
        ActionModel::DisableTx,
        ActionModel::AwaitFrame,
    ]
}

/// The events of a queue of frames, each given as its frequency, its
/// preamble samples and its own samples, taken in order.
pub open spec fn queue_events<S>(frames: Seq<(u64, Seq<S>, Seq<S>)>) -> Seq<EventModel<S>>
    decreases frames.len(),
{
    if frames.len() == 0 {
        Seq::empty()
    } else {
        frame_events(frames[0].0, frames[0].1, frames[0].2) + queue_events(frames.drop_first())
    }
}

/// The actions asked for a queue of frames, in order.
pub open spec fn queue_actions<S>(frames: Seq<(u64, Seq<S>, Seq<S>)>) -> Seq<ActionModel<S>>
    decreases frames.len(),
{
    if frames.len() == 0 {
        Seq::empty()
    } else {
        frame_actions(frames[0].0, frames[0].1, frames[0].2) + queue_actions(frames.drop_first())
    }
}

/// Running two sequences of events one after the other is running the
/// second from where the first ended.
pub proof fn lemma_run_append<S>(st: EngineState<S>, a: Seq<EventModel<S>>, b: Seq<EventModel<S>>)
    ensures
        run(st, a + b).0 == run(run(st, a).0, b).0,
        run(st, a + b).1 == run(st, a).1 + run(run(st, a).0, b).1,
    decreases a.len(),
{
    if a.len() == 0 {
        assert(a + b =~= b);
    } else {
        let next = model_step(st, a[0]).0;
        assert((a + b).drop_first() =~= a.drop_first() + b);
        lemma_run_append(next, a.drop_first(), b);
        assert(run(st, a).1 + run(run(st, a).0, b).1 =~= seq![model_step(st, a[0]).1] + (
        run(next, a.drop_first()).1 + run(run(next, a.drop_first()).0, b).1));
    }
}

/// One frame that goes through, from an idle engine, asks for exactly its
/// own five actions and leaves the engine idle with nothing pending.
pub proof fn lemma_one_frame<S>(st: EngineState<S>, freq: u64, preamble: Seq<S>, frame: Seq<S>)
    requires
        st.phase == EnginePhase::Idle,
    ensures
        run(st, frame_events(freq, preamble, frame)).1 == frame_actions(freq, preamble, frame),
        run(st, frame_events(freq, preamble, frame)).0 == (EngineState {
            phase: EnginePhase::Idle,
            freq,
            pending: Seq::<S>::empty(),
        }),
{
    let evs = frame_events(freq, preamble, frame);
    reveal_with_fuel(run, 6);
    assert(evs.drop_first() =~= seq![
        EventModel::Completed(true),
        EventModel::Completed(true),
        EventModel::Completed(true),
        EventModel::Completed(true),
    ]);
    assert(evs.drop_first().drop_first() =~= seq![
        EventModel::<S>::Completed(true),
        EventModel::Completed(true),
        EventModel::Completed(true),
    ]);
    assert(evs.drop_first().drop_first().drop_first() =~= seq![
        EventModel::<S>::Completed(true),
        EventModel::Completed(true),
    ]);
    assert(evs.drop_first().drop_first().drop_first().drop_first() =~= seq![
        EventModel::<S>::Completed(true),
    ]);
    assert(evs.drop_first().drop_first().drop_first().drop_first().drop_first() =~= Seq::<
        EventModel<S>,
    >::empty());
    assert(run(st, evs).1 =~= frame_actions(freq, preamble, frame));
}

/// Frames are sent in the order they are taken: from an idle engine, a
/// queue of frames that all go through asks, frame after frame, to key the
/// transmitter, tune it to that frame's frequency, push that frame's
/// preamble followed by its own samples, unkey, and wait for the next; no
/// other samples are pushed, and the engine ends idle.
pub proof fn lemma_frames_in_order<S>(st: EngineState<S>, frames: Seq<(u64, Seq<S>, Seq<S>)>)
    requires
        st.phase == EnginePhase::Idle,
    ensures
        run(st, queue_events(frames)).1 == queue_actions(frames),
        run(st, queue_events(frames)).0.phase == EnginePhase::Idle,
    decreases frames.len(),
{
    if frames.len() == 0 {
    } else {
        let (f, p, q) = frames[0];
        lemma_run_append(st, frame_events(f, p, q), queue_events(frames.drop_first()));
        lemma_one_frame(st, f, p, q);
        lemma_frames_in_order(run(st, frame_events(f, p, q)).0, frames.drop_first());
    }
}

/// From start-up: the engine first silences the transmitter once, then,
/// whatever became of that, sends the queued frames in order.
pub proof fn lemma_start_then_frames<S>(ok: bool, frames: Seq<(u64, Seq<S>, Seq<S>)>)
    ensures
        run(initial_state::<S>(), seq![EventModel::Start, EventModel::Completed(ok)] + queue_events(
            frames,
        )).1 == seq![ActionModel::<S>::DisableTx, ActionModel::AwaitFrame] + queue_actions(frames),
{
    let start = seq![EventModel::<S>::Start, EventModel::Completed(ok)];
    reveal_with_fuel(run, 3);
    assert(start.drop_first() =~= seq![EventModel::<S>::Completed(ok)]);
    assert(start.drop_first().drop_first() =~= Seq::<EventModel<S>>::empty());
    lemma_run_append(initial_state::<S>(), start, queue_events(frames));
    lemma_frames_in_order(run(initial_state::<S>(), start).0, frames);
}

/// The engine never waits for a frame with the transmitter keyed: it asks
/// for a frame only from a phase that is not keyed and then stands idle.
pub proof fn lemma_await_only_unkeyed<S>(st: EngineState<S>, e: EventModel<S>)
    requires
        expects(st.phase, e),
        model_step(st, e).1 is AwaitFrame,
    ensures
        !keyed(st.phase),
        model_step(st, e).0.phase == EnginePhase::Idle,
{
}

/// Once keying is asked for, disabling follows within three completions,
/// whatever they report: after tuning when it failed, after pushing
/// otherwise; the engine is then no longer keyed.
pub proof fn lemma_keying_always_unkeys<S>(st: EngineState<S>, ok1: bool, ok2: bool, ok3: bool)
    requires
        st.phase == EnginePhase::Keying,
    ensures
        ({
            let s1 = model_step(st, EventModel::Completed(ok1));
            let s2 = model_step(s1.0, EventModel::Completed(ok2));
            let s3 = model_step(s2.0, EventModel::Completed(ok3));
            &&& s1.1 == ActionModel::<S>::SetFrequency(st.freq)
            &&& if ok2 {
                &&& s2.1 == ActionModel::PushSamples(st.pending)
                &&& s3.1 is DisableTx
                &&& !keyed(s3.0.phase)
            } else {
                &&& s2.1 is DisableTx
                &&& !keyed(s2.0.phase)
            }
        }),
{
}

/// The engine: its phase, the frequency of the frame in flight and the
/// samples still to be pushed for it.
pub struct TransmissionEngine<S> {
    phase: EnginePhase,
    freq: u64,
    pending: Vec<S>,
}

impl<S> TransmissionEngine<S> {
    pub closed spec fn state(&self) -> EngineState<S> {
        EngineState { phase: self.phase, freq: self.freq, pending: self.pending@ }
    }

    /// An engine that has not started.
    pub fn new() -> (e: Self)
        ensures
            e.state() == initial_state::<S>(),
    {
        TransmissionEngine { phase: EnginePhase::Starting, freq: 0, pending: Vec::new() }
    }

    /// Takes the next event and returns the next action.
    pub fn step(&mut self, event: EngineEvent<S>) -> (action: EngineAction<S>)
        ensures
            (final(self).state(), action_model(action)) == model_step(
                old(self).state(),
                event_model(event),
            ),
    {
        match event {
            EngineEvent::Start => {
                self.phase = EnginePhase::InitialDisable;
                EngineAction::DisableTx
            },
            EngineEvent::Frame { freq, preamble_iq, frame_iq } => {
                let mut full_iq = preamble_iq;
                let mut tail = frame_iq;
                full_iq.append(&mut tail);
                self.pending = full_iq;
                self.freq = freq;
                self.phase = EnginePhase::Keying;
                EngineAction::EnableTx
            },
            EngineEvent::Completed(ok) => {
                match self.phase {
                    EnginePhase::Keying => {
                        self.phase = EnginePhase::Tuning;
                        EngineAction::SetFrequency(self.freq)
                    },
                    EnginePhase::Tuning => {
                        if ok {
                            let mut samples: Vec<S> = Vec::new();
                            std::mem::swap(&mut samples, &mut self.pending);
                            self.phase = EnginePhase::Pushing;
                            EngineAction::PushSamples(samples)
                        } else {
                            self.phase = EnginePhase::Unkeying;
                            EngineAction::DisableTx
                        }
                    },
                    EnginePhase::Pushing => {
                        self.phase = EnginePhase::Unkeying;
                        EngineAction::DisableTx
                    },
                    _ => {
                        self.phase = EnginePhase::Idle;
                        EngineAction::AwaitFrame
                    },
                }
            },
        }
    }
}

} // verus!
