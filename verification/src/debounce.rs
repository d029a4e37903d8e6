use vstd::prelude::*;

use crate::events::{accumulate, accumulated, plans, BatchPlan, FsEvent, PendingEvents, PendingMap};
use crate::markdown::PathStyle;

verus! {

/// Where the watch loop stands.
#[derive(Clone, Copy, Debug, PartialEq, Eq)]
pub enum WatchPhase {
    /// Nothing is pending; the loop waits for an event with no time limit.
    Idle,
    /// Events are pending; the loop waits for more until a quiet period
    /// passes.
    Debouncing,
    /// The event source is gone; the loop is over.
    Stopped,
}

/// What the watch loop learned from its last wait.
pub enum WatchInput {
    /// An event arrived.
    Event(FsEvent),
    /// The quiet period passed with no event.
    Timeout,
    /// The event source is gone.
    Disconnected,
}

/// What the watch loop does next.
pub enum WatchAction {
    /// Wait for the next event with no time limit.
    WaitForEvent,
    /// Wait for the next event for at most the quiet period.
    WaitWithTimeout,
    /// Apply this batch of index updates, then wait for the next event.
    Apply(BatchPlan),
    /// Stop watching.
    Stop,
}

/// The decisions of the watch loop: events are gathered until a quiet
/// period passes (or the event source goes away), and then applied as one
/// batch.
pub struct Debouncer {
    phase: WatchPhase,
    pending: PendingEvents,
}

impl Debouncer {
    /// Where the loop stands.
    pub closed spec fn phase(&self) -> WatchPhase {
        self.phase
    }

    /// The events gathered since the last batch.
    pub closed spec fn pending(&self) -> PendingMap {
        self.pending@
    }

    /// The path syntax by which Markdown paths are recognised and paths are
    /// compared.
    pub closed spec fn path_style(&self) -> PathStyle {
        self.pending.path_style()
    }

    /// Nothing is pending while the loop waits with no time limit.
    #[verifier::type_invariant]
    closed spec fn idle_is_empty(&self) -> bool {
        self.phase is Idle ==> self.pending@ == PendingMap::empty()
    }

    /// A loop that waits for its first event, reading paths in the path
    /// syntax of the platform the library runs on.
    pub fn new() -> (r: Debouncer)
        ensures
            r.phase() == WatchPhase::Idle,
            r.pending() == PendingMap::empty(),
    {
        Debouncer { phase: WatchPhase::Idle, pending: PendingEvents::new() }
    }

    /// A loop that waits for its first event, reading paths in `style`.
    pub fn with_style(style: PathStyle) -> (r: Debouncer)
        ensures
            r.phase() == WatchPhase::Idle,
            r.pending() == PendingMap::empty(),
            r.path_style() == style,
    {
        Debouncer { phase: WatchPhase::Idle, pending: PendingEvents::with_style(style) }
    }

    /// Takes in what the last wait brought and decides the next step. An
    /// event is gathered and a quiet period awaited; when the quiet period
    /// passes, or the source goes away with events pending, everything
    /// gathered is handed out as one batch; when the source goes away with
    /// nothing pending, the loop stops.
    pub fn step(&mut self, input: WatchInput) -> (r: WatchAction)
        ensures
            old(self).phase() is Idle ==> old(self).pending() == PendingMap::empty(),
            final(self).path_style() == old(self).path_style(),
            match old(self).phase() {
                WatchPhase::Stopped => r is Stop && final(self).phase() == WatchPhase::Stopped
                    && final(self).pending() == old(self).pending(),
                WatchPhase::Idle => match input {
                    WatchInput::Event(e) => r is WaitWithTimeout && final(self).phase()
                        == WatchPhase::Debouncing && final(self).pending() == accumulated(
                        old(self).path_style(),
                        old(self).pending(),
                        e.kind,
                        e.paths@,
                    ),
                    WatchInput::Timeout => r is WaitForEvent && final(self).phase()
                        == WatchPhase::Idle && final(self).pending() == old(self).pending(),
                    WatchInput::Disconnected => r is Stop && final(self).phase()
                        == WatchPhase::Stopped && final(self).pending() == old(self).pending(),
                },
                WatchPhase::Debouncing => match input {
                    WatchInput::Event(e) => r is WaitWithTimeout && final(self).phase()
                        == WatchPhase::Debouncing && final(self).pending() == accumulated(
                        old(self).path_style(),
                        old(self).pending(),
                        e.kind,
                        e.paths@,
                    ),
                    _ => final(self).phase() == WatchPhase::Idle && final(self).pending()
                        == PendingMap::empty() && match r {
                        WatchAction::Apply(plan) => plans(old(self).pending(), plan),
                        _ => false,
                    },
                },
            },
    {
        proof {
            use_type_invariant(&*self);
        }
        match self.phase {
            WatchPhase::Stopped => WatchAction::Stop,
            WatchPhase::Idle => match input {
                WatchInput::Event(e) => {
                    let mut pending = PendingEvents::with_style(PathStyle::Unix);
                    std::mem::swap(&mut pending, &mut self.pending);
                    accumulate(&mut pending, &e);
                    self.phase = WatchPhase::Debouncing;
                    self.pending = pending;
                    WatchAction::WaitWithTimeout
                },
                WatchInput::Timeout => WatchAction::WaitForEvent,
                WatchInput::Disconnected => {
                    self.phase = WatchPhase::Stopped;
                    WatchAction::Stop
                },
            },
            WatchPhase::Debouncing => match input {
                WatchInput::Event(e) => {
                    let mut pending = PendingEvents::with_style(PathStyle::Unix);
                    std::mem::swap(&mut pending, &mut self.pending);
                    accumulate(&mut pending, &e);
                    self.pending = pending;
                    WatchAction::WaitWithTimeout
                },
                _ => {
                    let mut pending = PendingEvents::with_style(PathStyle::Unix);
                    std::mem::swap(&mut pending, &mut self.pending);
                    let plan = pending.take_batch();
                    self.pending = pending;
                    self.phase = WatchPhase::Idle;
                    WatchAction::Apply(plan)
                },
            },
        }
    }
}

} // verus!
