//! The monitoring loop as a state machine.
//!
//! The machine never touches the operating system. In each state it asks for
//! one [`Action`]; the driver performs it and reports the outcome as an
//! [`Event`], which moves the machine to its next state. One iteration runs
//! from a sample, over the graceful signals, the grace sleep, the second
//! sample and the forceful signals, to the liveness ping and the look at the
//! shutdown flag.

use vstd::prelude::*;
use crate::error::Fatal;
use crate::escalation::{
    find_survivors,
    mark_offenders,
    offenders,
    still_present,
    survivors,
    ProcessObservation,
};

verus! {

/// The grace interval between the graceful signals and the second sample, in
/// seconds.
pub const GRACE_SECONDS: u64 = 2;

/// Where in an iteration the machine stands, named by what it waits for.
#[derive(Clone, Copy, Debug, PartialEq, Eq, Structural)]
pub enum Phase {
    /// Waiting for a fresh sample of the processes with the target name.
    Sampling,
    /// Sending the graceful signal to one marked process after another.
    Escalating,
    /// Sleeping through the grace interval.
    Cooling,
    /// Waiting for the second sample of this iteration.
    Reconciling,
    /// Sending the forceful signal to one surviving process after another.
    Reaping,
    /// Waiting for the outcome of the liveness ping.
    Notifying,
    /// Waiting for the value of the shutdown flag.
    CheckingShutdown,
    /// The loop has ended on request.
    Terminal,
    /// The loop has given up, for the cause named.
    Failed(Fatal),
}

/// What the machine asks its driver to do.
#[derive(Clone, Copy, Debug, PartialEq, Eq, Structural)]
pub enum Action {
    /// Take a sample of the live processes that carry the target name.
    Sample,
    /// Send the graceful termination signal to this process.
    SoftSignal(u32),
    /// Sleep for this many seconds.
    Sleep(u64),
    /// Take a second sample: the identifiers of the processes now alive.
    Resample,
    /// Send the forceful termination signal to this process.
    HardSignal(u32),
    /// Send one liveness ping to the service manager.
    NotifyAlive,
    /// Read the shutdown flag.
    ReadRunFlag,
    /// Leave the loop: shutdown was requested.
    Stop,
    /// Leave the loop with an error, for the cause named.
    Abort(Fatal),
}

/// What the driver reports back.
#[derive(Debug)]
pub enum Event {
    /// The sample asked for by [`Action::Sample`].
    Sampled(Vec<ProcessObservation>),
    /// The sample asked for, the first or the second of the iteration, could
    /// not be taken.
    SampleFailed,
    /// The graceful signal was attempted; the flag tells whether it was
    /// delivered.
    SoftSignalled(bool),
    /// The grace interval is over.
    GraceElapsed,
    /// The identifiers of the processes found alive by [`Action::Resample`].
    Resampled(Vec<u32>),
    /// The forceful signal was attempted; the flag tells whether it was
    /// delivered.
    HardSignalled(bool),
    /// The liveness ping was attempted; the flag tells whether it succeeded.
    Notified(bool),
    /// The shutdown flag as it was read: `true` while the loop shall run.
    RunFlag(bool),
}

/// The state of the machine as contracts see it.
#[verifier::ext_equal]
pub struct MonitorState {
    /// The threshold in bytes.
    pub threshold: u64,
    /// Whether the service manager is pinged once per iteration.
    pub notify: bool,
    pub phase: Phase,
    /// The processes found over the threshold in this iteration, in the order
    /// of the sample.
    pub marked: Seq<u32>,
    /// The marked processes that the second sample still showed.
    pub stale: Seq<u32>,
    /// How many graceful signals (while escalating) or forceful signals (while
    /// reaping) have been attempted.
    pub cursor: nat,
}

impl MonitorState {
    /// The state in which a monitor starts: about to take its first sample.
    pub open spec fn initial(threshold: u64, notify: bool) -> MonitorState {
        MonitorState {
            threshold,
            notify,
            phase: Phase::Sampling,
            marked: Seq::empty(),
            stale: Seq::empty(),
            cursor: 0,
        }
    }

    /// The states a monitor can be in.
    pub open spec fn wf(self) -> bool {
        match self.phase {
            Phase::Escalating => self.cursor < self.marked.len() && self.stale.len() == 0,
            Phase::Cooling | Phase::Reconciling => self.cursor == 0 && self.stale.len() == 0,
            Phase::Reaping => {
                &&& self.cursor < self.stale.len() <= self.marked.len()
                &&& forall|i: int| 0 <= i < self.stale.len() ==> self.marked.contains(self.stale[i])
            },
            _ => self.cursor == 0 && self.marked.len() == 0 && self.stale.len() == 0,
        }
    }

    /// The processes that have had a graceful signal attempted in this
    /// iteration and are not reconciled yet.
    pub open spec fn pending(self) -> Seq<u32> {
        match self.phase {
            Phase::Escalating => self.marked.take(self.cursor as int),
            Phase::Cooling | Phase::Reconciling | Phase::Reaping => self.marked,
            _ => Seq::empty(),
        }
    }

    /// What the machine asks for in this state.
    pub open spec fn action(self) -> Action {
        match self.phase {
            Phase::Sampling => Action::Sample,
            Phase::Escalating => Action::SoftSignal(self.marked[self.cursor as int]),
            Phase::Cooling => Action::Sleep(GRACE_SECONDS),
            Phase::Reconciling => Action::Resample,
            Phase::Reaping => Action::HardSignal(self.stale[self.cursor as int]),
            Phase::Notifying => Action::NotifyAlive,
            Phase::CheckingShutdown => Action::ReadRunFlag,
            Phase::Terminal => Action::Stop,
            Phase::Failed(cause) => Action::Abort(cause),
        }
    }

    /// The state with both lists discarded, in the given phase.
    pub open spec fn cleared(self, phase: Phase) -> MonitorState {
        MonitorState { phase, marked: Seq::empty(), stale: Seq::empty(), cursor: 0, ..self }
    }

    /// The state once this iteration's signals are done with: the pending
    /// records are discarded, and the ping comes next where it is enabled.
    pub open spec fn settled(self) -> MonitorState {
        self.cleared(if self.notify { Phase::Notifying } else { Phase::CheckingShutdown })
    }

    /// The state after a sample in which these processes were over the
    /// threshold.
    pub open spec fn evaluated(self, marked: Seq<u32>) -> MonitorState {
        MonitorState {
            phase: if marked.len() > 0 { Phase::Escalating } else { Phase::Cooling },
            marked,
            stale: Seq::empty(),
            cursor: 0,
            ..self
        }
    }

    /// The state after one more graceful signal was attempted. Whether it was
    /// delivered plays no part: the process stays pending either way.
    pub open spec fn escalated(self) -> MonitorState {
        if self.cursor + 1 < self.marked.len() {
            MonitorState { cursor: self.cursor + 1, ..self }
        } else {
            MonitorState { phase: Phase::Cooling, cursor: 0, ..self }
        }
    }

    /// The state after the second sample, in which these pending processes
    /// were still alive.
    pub open spec fn reconciled(self, stale: Seq<u32>) -> MonitorState {
        if stale.len() > 0 {
            MonitorState { phase: Phase::Reaping, stale, cursor: 0, ..self }
        } else {
            self.settled()
        }
    }

    /// The state after one more forceful signal was attempted.
    pub open spec fn reaped(self) -> MonitorState {
        if self.cursor + 1 < self.stale.len() {
            MonitorState { cursor: self.cursor + 1, ..self }
        } else {
            self.settled()
        }
    }

    /// The state that follows when the driver reports `event`. An event that
    /// does not answer the action asked for leaves the state as it is.
    pub open spec fn transition(self, event: Event) -> MonitorState {
        match (self.phase, event) {
            (Phase::Sampling, Event::Sampled(sample)) => self.evaluated(
                offenders(sample@, self.threshold),
            ),
            (Phase::Sampling, Event::SampleFailed) => self.cleared(
                Phase::Failed(Fatal::SamplerUnavailable),
            ),
            (Phase::Reconciling, Event::SampleFailed) => self.cleared(
                Phase::Failed(Fatal::SamplerUnavailable),
            ),
            (Phase::Escalating, Event::SoftSignalled(_)) => self.escalated(),
            (Phase::Cooling, Event::GraceElapsed) => MonitorState {
                phase: Phase::Reconciling,
                ..self
            },
            (Phase::Reconciling, Event::Resampled(present)) => self.reconciled(
                survivors(self.marked, present@),
            ),
            (Phase::Reaping, Event::HardSignalled(_)) => self.reaped(),
            (Phase::Notifying, Event::Notified(delivered)) => self.cleared(
                if delivered {
                    Phase::CheckingShutdown
                } else {
                    Phase::Failed(Fatal::NotificationFailed)
                },
            ),
            (Phase::CheckingShutdown, Event::RunFlag(running)) => self.cleared(
                if running { Phase::Sampling } else { Phase::Terminal },
            ),
            _ => self,
        }
    }

    /// Whether the event answers the action that the machine asks for in this
    /// state.
    pub open spec fn answered_by(self, event: Event) -> bool {
        match (self.phase, event) {
            (Phase::Sampling, Event::Sampled(_)) => true,
            (Phase::Sampling, Event::SampleFailed) => true,
            (Phase::Reconciling, Event::SampleFailed) => true,
            (Phase::Escalating, Event::SoftSignalled(_)) => true,
            (Phase::Cooling, Event::GraceElapsed) => true,
            (Phase::Reconciling, Event::Resampled(_)) => true,
            (Phase::Reaping, Event::HardSignalled(_)) => true,
            (Phase::Notifying, Event::Notified(_)) => true,
            (Phase::CheckingShutdown, Event::RunFlag(_)) => true,
            _ => false,
        }
    }

    /// How many actions the iteration under way can still ask for before it
    /// asks for the shutdown flag, at most.
    pub open spec fn actions_left(self) -> nat {
        match self.phase {
            Phase::Escalating => (2 * self.marked.len() - self.cursor + 3) as nat,
            Phase::Cooling => self.marked.len() + 3,
            Phase::Reconciling => self.marked.len() + 2,
            Phase::Reaping => (self.stale.len() - self.cursor + 1) as nat,
            Phase::Notifying => 1,
            _ => 0,
        }
    }

    /// The state after the driver has reported these events, one after another.
    pub open spec fn run(self, events: Seq<Event>) -> MonitorState
        decreases events.len(),
    {
        if events.len() == 0 {
            self
        } else {
            self.run(events.drop_last()).transition(events.last())
        }
    }
}

/// The monitoring loop of one target: its threshold, whether the service
/// manager is pinged, and how far the current iteration has come.
#[derive(Debug)]
pub struct Monitor {
    threshold: u64,
    notify: bool,
    phase: Phase,
    marked: Vec<u32>,
    stale: Vec<u32>,
    cursor: usize,
}

impl View for Monitor {
    type V = MonitorState;

    closed spec fn view(&self) -> MonitorState {
        MonitorState {
            threshold: self.threshold,
            notify: self.notify,
            phase: self.phase,
            marked: self.marked@,
            stale: self.stale@,
            cursor: self.cursor as nat,
        }
    }
}

impl Monitor {
    #[verifier::type_invariant]
    spec fn valid(self) -> bool {
        self@.wf()
    }

    /// A monitor for the given threshold in bytes, about to take its first
    /// sample.
    pub fn new(threshold: u64, notify: bool) -> (monitor: Monitor)
        ensures
            monitor@ == MonitorState::initial(threshold, notify),
            monitor@.wf(),
    {
        Monitor {
            threshold,
            notify,
            phase: Phase::Sampling,
            marked: Vec::new(),
            stale: Vec::new(),
            cursor: 0,
        }
    }

    /// The threshold in bytes.
    pub fn threshold(&self) -> (threshold: u64)
        ensures
            threshold == self@.threshold,
    {
        self.threshold
    }

    /// Where in the iteration the machine stands.
    pub fn phase(&self) -> (phase: Phase)
        ensures
            phase == self@.phase,
    {
        self.phase
    }

    /// What the driver shall do now.
    pub fn action(&self) -> (action: Action)
        ensures
            action == self@.action(),
            self@.wf(),
    {
        proof {
            use_type_invariant(self);
        }
        match self.phase {
            Phase::Sampling => Action::Sample,
            Phase::Escalating => Action::SoftSignal(self.marked[self.cursor]),
            Phase::Cooling => Action::Sleep(GRACE_SECONDS),
            Phase::Reconciling => Action::Resample,
            Phase::Reaping => Action::HardSignal(self.stale[self.cursor]),
            Phase::Notifying => Action::NotifyAlive,
            Phase::CheckingShutdown => Action::ReadRunFlag,
            Phase::Terminal => Action::Stop,
            Phase::Failed(cause) => Action::Abort(cause),
        }
    }

    /// The state in the given phase with both lists discarded.
    fn cleared(self, phase: Phase) -> (next: Monitor)
        requires
            phase != Phase::Escalating,
            phase != Phase::Reaping,
        ensures
            next@ == self@.cleared(phase),
    {
        Monitor {
            threshold: self.threshold,
            notify: self.notify,
            phase,
            marked: Vec::new(),
            stale: Vec::new(),
            cursor: 0,
        }
    }

    /// The state once this iteration's signals are done with.
    fn settled(self) -> (next: Monitor)
        ensures
            next@ == self@.settled(),
    {
        let phase = if self.notify {
            Phase::Notifying
        } else {
            Phase::CheckingShutdown
        };
        self.cleared(phase)
    }

    /// Takes the driver's report and moves to the next state. A report that
    /// does not answer the action asked for changes nothing.
    pub fn step(self, event: Event) -> (next: Monitor)
        ensures
            next@ == self@.transition(event),
            next@.wf(),
    {
        proof {
            use_type_invariant(&self);
            lemma_transition_preserves_wf(self@, event);
        }
        match self.phase {
            Phase::Sampling => match event {
                Event::Sampled(sample) => {
                    let marked = mark_offenders(&sample, self.threshold);
                    let phase = if marked.len() > 0 {
                        Phase::Escalating
                    } else {
                        Phase::Cooling
                    };
                    Monitor {
                        threshold: self.threshold,
                        notify: self.notify,
                        phase,
                        marked,
                        stale: Vec::new(),
                        cursor: 0,
                    }
                },
                Event::SampleFailed => self.cleared(Phase::Failed(Fatal::SamplerUnavailable)),
                _ => self,
            },
            Phase::Escalating => match event {
                Event::SoftSignalled(_) => {
                    let count = self.marked.len();
                    if self.cursor + 1 < count {
                        Monitor {
                            threshold: self.threshold,
                            notify: self.notify,
                            phase: self.phase,
                            marked: self.marked,
                            stale: self.stale,
                            cursor: self.cursor + 1,
                        }
                    } else {
                        Monitor {
                            threshold: self.threshold,
                            notify: self.notify,
                            phase: Phase::Cooling,
                            marked: self.marked,
                            stale: self.stale,
                            cursor: 0,
                        }
                    }
                },
                _ => self,
            },
            Phase::Cooling => match event {
                Event::GraceElapsed => Monitor {
                    threshold: self.threshold,
                    notify: self.notify,
                    phase: Phase::Reconciling,
                    marked: self.marked,
                    stale: self.stale,
                    cursor: self.cursor,
                },
                _ => self,
            },
            Phase::Reconciling => match event {
                Event::Resampled(present) => {
                    let stale = find_survivors(&self.marked, &present);
                    if stale.len() > 0 {
                        Monitor {
                            threshold: self.threshold,
                            notify: self.notify,
                            phase: Phase::Reaping,
                            marked: self.marked,
                            stale,
                            cursor: 0,
                        }
                    } else {
                        self.settled()
                    }
                },
                Event::SampleFailed => self.cleared(Phase::Failed(Fatal::SamplerUnavailable)),
                _ => self,
            },
            Phase::Reaping => match event {
                Event::HardSignalled(_) => {
                    let count = self.stale.len();
                    if self.cursor + 1 < count {
                        Monitor {
                            threshold: self.threshold,
                            notify: self.notify,
                            phase: self.phase,
                            marked: self.marked,
                            stale: self.stale,
                            cursor: self.cursor + 1,
                        }
                    } else {
                        self.settled()
                    }
                },
                _ => self,
            },
            Phase::Notifying => match event {
                Event::Notified(delivered) => {
                    let phase = if delivered {
                        Phase::CheckingShutdown
                    } else {
                        Phase::Failed(Fatal::NotificationFailed)
                    };
                    self.cleared(phase)
                },
                _ => self,
            },
            Phase::CheckingShutdown => match event {
                Event::RunFlag(running) => {
                    let phase = if running {
                        Phase::Sampling
                    } else {
                        Phase::Terminal
                    };
                    self.cleared(phase)
                },
                _ => self,
            },
            Phase::Terminal => self,
            Phase::Failed(_) => self,
        }
    }
}

/// Every report leads from a state a monitor can be in to another such state.
pub proof fn lemma_transition_preserves_wf(state: MonitorState, event: Event)
    requires
        state.wf(),
    ensures
        state.transition(event).wf(),
{
    match (state.phase, event) {
        (Phase::Reconciling, Event::Resampled(present)) => {
            let stale = survivors(state.marked, present@);
            state.marked.lemma_filter_len(still_present(present@));
            assert forall|i: int| 0 <= i < stale.len() implies state.marked.contains(stale[i]) by {
                assert(stale.contains(stale[i]));
                crate::escalation::lemma_survivors_are_pending_and_present(
                    state.marked,
                    present@,
                    stale[i],
                );
            }
        },
        _ => {},
    }
}

/// The reports of an escalation: the sample, then the outcome of each graceful
/// signal attempted so far.
pub open spec fn escalation_reports(sample: Vec<ProcessObservation>, outcomes: Seq<bool>) -> Seq<
    Event,
> {
    seq![Event::Sampled(sample)] + Seq::new(
        outcomes.len(),
        |i: int| Event::SoftSignalled(outcomes[i]),
    )
}

/// The reports of a reconciliation: the second sample, then the outcome of each
/// forceful signal attempted so far.
pub open spec fn reconciliation_reports(present: Vec<u32>, outcomes: Seq<bool>) -> Seq<Event> {
    seq![Event::Resampled(present)] + Seq::new(
        outcomes.len(),
        |i: int| Event::HardSignalled(outcomes[i]),
    )
}

/// Whether every look at the shutdown flag among these reports found that the
/// loop shall stop.
pub open spec fn stop_requested(events: Seq<Event>) -> bool {
    forall|i: int|
        0 <= i < events.len() ==> (#[trigger] events[i] matches Event::RunFlag(running)
            ==> !running)
}

/// Whatever is reported, a monitor stays in a state it can be in, and its
/// threshold and its ping setting stay as they were made.
pub proof fn lemma_run_keeps_configuration(state: MonitorState, events: Seq<Event>)
    requires
        state.wf(),
    ensures
        state.run(events).wf(),
        state.run(events).threshold == state.threshold,
        state.run(events).notify == state.notify,
    decreases events.len(),
{
    if events.len() > 0 {
        lemma_run_keeps_configuration(state, events.drop_last());
        lemma_transition_preserves_wf(state.run(events.drop_last()), events.last());
    }
}

/// The state after a sample and the outcomes of the first graceful signals.
proof fn lemma_escalation_state(
    state: MonitorState,
    sample: Vec<ProcessObservation>,
    outcomes: Seq<bool>,
)
    requires
        state.wf(),
        state.phase == Phase::Sampling,
        outcomes.len() <= offenders(sample@, state.threshold).len(),
    ensures
        ({
            let marked = offenders(sample@, state.threshold);
            let after = state.run(escalation_reports(sample, outcomes));
            &&& after.marked == marked
            &&& after.stale.len() == 0
            &&& outcomes.len() < marked.len() ==> after.phase == Phase::Escalating && after.cursor
                == outcomes.len()
            &&& outcomes.len() == marked.len() ==> after.phase == Phase::Cooling && after.cursor
                == 0
        }),
    decreases outcomes.len(),
{
    let events = escalation_reports(sample, outcomes);
    if outcomes.len() == 0 {
        assert(events.drop_last() =~= Seq::empty());
        assert(events.last() == Event::Sampled(sample));
        assert(state.run(events.drop_last()) == state);
    } else {
        let earlier = outcomes.drop_last();
        lemma_escalation_state(state, sample, earlier);
        assert(events.drop_last() =~= escalation_reports(sample, earlier));
        assert(events.last() == Event::SoftSignalled(outcomes.last()));
    }
    assert(state.run(events) == state.run(events.drop_last()).transition(events.last()));
}

/// Within one iteration every process over the threshold gets exactly one
/// graceful signal, in the order of the sample, whether or not the signals are
/// delivered, and the grace sleep begins only when all of them have been
/// attempted: after the sample and `n` outcomes the machine asks for the
/// signal to the `n`-th marked process, with the first `n` pending, and once
/// every marked process has had its attempt it asks for the sleep.
pub proof fn lemma_soft_signals_precede_sleep(
    state: MonitorState,
    sample: Vec<ProcessObservation>,
    outcomes: Seq<bool>,
)
    requires
        state.wf(),
        state.phase == Phase::Sampling,
        outcomes.len() <= offenders(sample@, state.threshold).len(),
    ensures
        ({
            let marked = offenders(sample@, state.threshold);
            let after = state.run(escalation_reports(sample, outcomes));
            &&& after.wf()
            &&& after.pending() == marked.take(outcomes.len() as int)
            &&& outcomes.len() < marked.len() ==> after.action() == Action::SoftSignal(
                marked[outcomes.len() as int],
            )
            &&& outcomes.len() == marked.len() ==> after.action() == Action::Sleep(GRACE_SECONDS)
        }),
{
    let marked = offenders(sample@, state.threshold);
    lemma_escalation_state(state, sample, outcomes);
    lemma_run_keeps_configuration(state, escalation_reports(sample, outcomes));
    assert(marked.take(marked.len() as int) =~= marked);
}

/// The state after the second sample and the outcomes of the first forceful
/// signals.
proof fn lemma_reconciliation_state(state: MonitorState, present: Vec<u32>, outcomes: Seq<bool>)
    requires
        state.wf(),
        state.phase == Phase::Reconciling,
        outcomes.len() <= survivors(state.marked, present@).len(),
    ensures
        ({
            let stale = survivors(state.marked, present@);
            let after = state.run(reconciliation_reports(present, outcomes));
            &&& outcomes.len() < stale.len() ==> after == MonitorState {
                phase: Phase::Reaping,
                stale,
                cursor: outcomes.len(),
                ..state
            }
            &&& outcomes.len() == stale.len() ==> after == state.settled()
        }),
    decreases outcomes.len(),
{
    let stale = survivors(state.marked, present@);
    let events = reconciliation_reports(present, outcomes);
    if outcomes.len() == 0 {
        assert(events.drop_last() =~= Seq::empty());
        assert(events.last() == Event::Resampled(present));
        assert(state.run(events.drop_last()) == state);
    } else {
        let earlier = outcomes.drop_last();
        lemma_reconciliation_state(state, present, earlier);
        assert(events.drop_last() =~= reconciliation_reports(present, earlier));
        assert(events.last() == Event::HardSignalled(outcomes.last()));
    }
    let after = state.run(events);
    assert(after == state.run(events.drop_last()).transition(events.last()));
    if outcomes.len() == stale.len() {
        assert(after =~= state.settled());
    } else {
        assert(after =~= MonitorState {
            phase: Phase::Reaping,
            stale,
            cursor: outcomes.len(),
            ..state
        });
    }
}

/// Reconciliation examines only processes that had a graceful signal attempted
/// in the same iteration, and sends the forceful signal to exactly those of
/// them that the second sample still shows: after the second sample and `n`
/// outcomes the machine asks for the signal to the `n`-th survivor, and once
/// every survivor has had its attempt the pending records are discarded and the
/// iteration goes on to the ping or to the shutdown flag.
pub proof fn lemma_hard_signals_follow_resample(
    state: MonitorState,
    present: Vec<u32>,
    outcomes: Seq<bool>,
)
    requires
        state.wf(),
        state.phase == Phase::Reconciling,
        outcomes.len() <= survivors(state.pending(), present@).len(),
    ensures
        ({
            let stale = survivors(state.pending(), present@);
            let after = state.run(reconciliation_reports(present, outcomes));
            &&& after.wf()
            &&& outcomes.len() < stale.len() ==> after.action() == Action::HardSignal(
                stale[outcomes.len() as int],
            ) && after.pending() == state.pending()
            &&& outcomes.len() == stale.len() ==> after == state.settled() && after.pending().len()
                == 0
        }),
{
    lemma_reconciliation_state(state, present, outcomes);
    lemma_run_keeps_configuration(state, reconciliation_reports(present, outcomes));
}

/// A process that the second sample lacks counts as terminated: throughout the
/// reconciliation no signal to it is asked for, and the loop does not fail.
pub proof fn lemma_absent_process_is_left_alone(
    state: MonitorState,
    present: Vec<u32>,
    outcomes: Seq<bool>,
    pid: u32,
)
    requires
        state.wf(),
        state.phase == Phase::Reconciling,
        outcomes.len() <= survivors(state.pending(), present@).len(),
        !present@.contains(pid),
    ensures
        ({
            let after = state.run(reconciliation_reports(present, outcomes));
            &&& after.action() != Action::HardSignal(pid)
            &&& after.action() != Action::SoftSignal(pid)
            &&& !(after.phase is Failed)
        }),
{
    let stale = survivors(state.pending(), present@);
    lemma_hard_signals_follow_resample(state, present, outcomes);
    if outcomes.len() < stale.len() {
        assert(stale.contains(stale[outcomes.len() as int]));
        crate::escalation::lemma_survivors_are_pending_and_present(
            state.pending(),
            present@,
            pid,
        );
    }
}

/// Once the shutdown flag is read as cleared the loop ends, and nothing that is
/// reported afterwards starts it again.
pub proof fn lemma_shutdown_is_final(state: MonitorState, events: Seq<Event>)
    requires
        state.wf(),
        state.phase == Phase::CheckingShutdown,
    ensures
        state.transition(Event::RunFlag(false)).action() == Action::Stop,
        state.transition(Event::RunFlag(false)).run(events) == state.transition(
            Event::RunFlag(false),
        ),
    decreases events.len(),
{
    if events.len() > 0 {
        lemma_shutdown_is_final(state, events.drop_last());
    }
}

/// An iteration comes to its end whatever is reported: each report that
/// answers the action asked for leaves fewer actions to ask for before the
/// shutdown flag is read, so a shutdown request waits for no more than what is
/// left of one iteration.
pub proof fn lemma_iteration_ends(state: MonitorState, event: Event)
    requires
        state.wf(),
        state.answered_by(event),
        state.phase != Phase::Sampling,
        state.phase != Phase::CheckingShutdown,
    ensures
        state.transition(event).actions_left() < state.actions_left(),
{
    match (state.phase, event) {
        (Phase::Reconciling, Event::Resampled(present)) => {
            state.marked.lemma_filter_len(still_present(present@));
        },
        _ => {},
    }
}

/// A report that does not answer the action asked for changes nothing.
pub proof fn lemma_unasked_report_is_ignored(state: MonitorState, event: Event)
    requires
        !state.answered_by(event),
    ensures
        state.transition(event) == state,
{
}

/// A new iteration begins only where the shutdown flag was read as set.
pub proof fn lemma_iteration_needs_running_flag(state: MonitorState, event: Event)
    requires
        state.wf(),
        state.phase != Phase::Sampling,
        state.transition(event).phase == Phase::Sampling,
    ensures
        state.phase == Phase::CheckingShutdown,
        event == Event::RunFlag(true),
{
}

/// Once shutdown is requested the iteration under way is the last: if every
/// look at the flag from now on finds it cleared, the machine never asks for
/// another first sample.
pub proof fn lemma_no_iteration_after_stop(state: MonitorState, events: Seq<Event>)
    requires
        state.wf(),
        state.phase != Phase::Sampling,
        stop_requested(events),
    ensures
        state.run(events).phase != Phase::Sampling,
        state.run(events).action() != Action::Sample,
    decreases events.len(),
{
    if events.len() > 0 {
        let earlier = events.drop_last();
        assert(stop_requested(earlier)) by {
            assert forall|i: int| 0 <= i < earlier.len() implies (#[trigger] earlier[i] matches Event::RunFlag(
                running,
            ) ==> !running) by {
                assert(earlier[i] == events[i]);
            }
        }
        lemma_no_iteration_after_stop(state, earlier);
        lemma_run_keeps_configuration(state, earlier);
        let before = state.run(earlier);
        if before.transition(events.last()).phase == Phase::Sampling {
            lemma_iteration_needs_running_flag(before, events.last());
            assert(events[events.len() - 1] == Event::RunFlag(true));
        }
    }
}

} // verus!
