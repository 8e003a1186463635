//! The order in which a session is closed.
//!
//! What of a session is not yet in memory is flushed; its transcript is put away
//! only where that succeeded, so that it can be tried again.

use crate::orchestrator::inbound;
use crate::orchestrator::inbound::{AfterSummary, SessionResetReason};
use vstd::prelude::*;

verus! {

/// Why a session is closed.
#[derive(Clone, Copy, Debug, PartialEq, Eq, Structural)]
pub enum ClosingKind {
    /// It is out of use; `recovering` where an unfinished closing is taken up.
    Stale { recovering: bool },
    /// A new session follows it, and waits for its summary.
    Fallback { reason: SessionResetReason },
    /// The user resets it.
    Reset,
}

/// What is done to close a session.
#[derive(Clone, Copy, Debug, PartialEq, Eq, Structural)]
pub enum ClosingAction {
    /// The session that is reset is looked for.
    FindSession,
    /// Its open episodes are closed, and flushed by themselves.
    EndEpisodes,
    /// What is not flushed yet is captured.
    Capture,
    /// That nothing was left to flush is recorded.
    SettleClean,
    /// That a flush has begun is recorded.
    MarkBegun,
    Flush,
    /// How the flush ended is recorded.
    Settle,
    Archive,
    ClearTranscript,
    /// The state of the session's memory is deleted.
    ForgetState,
    /// The session is marked for indexing.
    MarkDirty,
    Reindex,
    ResetSession,
    /// The agent speaks first in the new session.
    Greet,
    /// The claim on an unfinished closing is given up.
    Release,
    Done,
    Fail,
}

/// How a step of a closing ended.
#[derive(Clone, Copy, Debug, PartialEq, Eq, Structural)]
pub enum ClosingEvent {
    Succeeded,
    Failed,
    /// What was looked for is there, or is not.
    Found { there: bool },
}

/// How far a closing has come.
#[derive(Clone, Copy, Debug, PartialEq, Eq, Structural)]
pub struct ClosingState {
    pub kind: ClosingKind,
    /// What is being done.
    pub doing: ClosingAction,
    /// There is a session to be reset.
    pub has_session: bool,
    /// The flush succeeded.
    pub flushed: bool,
}

// Steps

pub open spec fn first_action(kind: ClosingKind) -> ClosingAction {
    match kind {
        ClosingKind::Stale { .. } => ClosingAction::EndEpisodes,
        ClosingKind::Fallback { .. } => ClosingAction::Capture,
        ClosingKind::Reset => ClosingAction::FindSession,
    }
}

pub open spec fn first_state(kind: ClosingKind) -> ClosingState {
    ClosingState { kind, doing: first_action(kind), has_session: false, flushed: false }
}

/// The last step of a closing that found nothing more to do.
pub open spec fn last_action(kind: ClosingKind) -> ClosingAction {
    if kind == (ClosingKind::Stale { recovering: true }) {
        ClosingAction::Release
    } else {
        ClosingAction::Done
    }
}

/// What follows the record of a flush.
pub open spec fn after_settling(kind: ClosingKind, flushed: bool) -> ClosingAction {
    match kind {
        ClosingKind::Stale { .. } => if flushed {
            ClosingAction::Archive
        } else {
            last_action(kind)
        },
        ClosingKind::Fallback { reason } => if inbound::archived_after(reason, flushed)
            == AfterSummary::Archive {
            ClosingAction::Archive
        } else {
            ClosingAction::Done
        },
        ClosingKind::Reset => ClosingAction::ResetSession,
    }
}

impl ClosingState {
    pub open spec fn ended(self) -> bool {
        self.doing == ClosingAction::Done || self.doing == ClosingAction::Fail
    }

    pub open spec fn goes_on_with(self, doing: ClosingAction) -> ClosingState {
        ClosingState { doing, ..self }
    }
}

/// The state after a step that ended in some way.
pub open spec fn after(state: ClosingState, event: ClosingEvent) -> ClosingState {
    let failed = event == ClosingEvent::Failed;
    let found = event == (ClosingEvent::Found { there: true });
    let is_reset = state.kind == ClosingKind::Reset;
    match state.doing {
        ClosingAction::FindSession => if failed {
            state.goes_on_with(ClosingAction::Fail)
        } else if found {
            ClosingState { has_session: true, doing: ClosingAction::EndEpisodes, ..state }
        } else {
            state.goes_on_with(ClosingAction::ResetSession)
        },
        ClosingAction::EndEpisodes => state.goes_on_with(ClosingAction::Capture),
        ClosingAction::Capture => state.goes_on_with(
            match state.kind {
                ClosingKind::Stale { .. } => if found {
                    ClosingAction::MarkBegun
                } else {
                    ClosingAction::SettleClean
                },
                ClosingKind::Fallback { .. } => if found {
                    ClosingAction::Flush
                } else {
                    ClosingAction::SettleClean
                },
                ClosingKind::Reset => if found {
                    ClosingAction::Flush
                } else {
                    ClosingAction::ResetSession
                },
            },
        ),
        ClosingAction::SettleClean => state.goes_on_with(last_action(state.kind)),
        ClosingAction::MarkBegun => state.goes_on_with(ClosingAction::Flush),
        ClosingAction::Flush => ClosingState {
            flushed: event == ClosingEvent::Succeeded,
            doing: ClosingAction::Settle,
            ..state
        },
        ClosingAction::Settle => state.goes_on_with(after_settling(state.kind, state.flushed)),
        ClosingAction::Archive => state.goes_on_with(
            if failed {
                last_action(state.kind)
            } else {
                ClosingAction::ForgetState
            },
        ),
        ClosingAction::ClearTranscript => state.goes_on_with(ClosingAction::ForgetState),
        ClosingAction::ForgetState => state.goes_on_with(
            if is_reset {
                ClosingAction::Greet
            } else {
                ClosingAction::MarkDirty
            },
        ),
        ClosingAction::MarkDirty => state.goes_on_with(
            if failed && state.kind is Stale {
                last_action(state.kind)
            } else {
                ClosingAction::Reindex
            },
        ),
        ClosingAction::Reindex => state.goes_on_with(last_action(state.kind)),
        ClosingAction::ResetSession => state.goes_on_with(
            if state.has_session {
                ClosingAction::ClearTranscript
            } else {
                ClosingAction::Greet
            },
        ),
        ClosingAction::Greet => state.goes_on_with(
            if failed {
                ClosingAction::Fail
            } else {
                ClosingAction::Done
            },
        ),
        ClosingAction::Release => state.goes_on_with(ClosingAction::Done),
        ClosingAction::Done => state,
        ClosingAction::Fail => state,
    }
}

fn finish(kind: ClosingKind) -> (r: ClosingAction)
    ensures
        r == last_action(kind),
{
    match kind {
        ClosingKind::Stale { recovering: true } => ClosingAction::Release,
        _ => ClosingAction::Done,
    }
}

fn follow_settling(kind: ClosingKind, flushed: bool) -> (r: ClosingAction)
    ensures
        r == after_settling(kind, flushed),
{
    match kind {
        ClosingKind::Stale { .. } => if flushed {
            ClosingAction::Archive
        } else {
            finish(kind)
        },
        ClosingKind::Fallback { reason } => match inbound::after_fallback_summary(reason, flushed) {
            AfterSummary::Archive => ClosingAction::Archive,
            _ => ClosingAction::Done,
        },
        ClosingKind::Reset => ClosingAction::ResetSession,
    }
}

fn follow_capture(kind: ClosingKind, found: bool) -> (r: ClosingAction)
    ensures
        r == (if !found {
            if kind == ClosingKind::Reset {
                ClosingAction::ResetSession
            } else {
                ClosingAction::SettleClean
            }
        } else if kind is Stale {
            ClosingAction::MarkBegun
        } else {
            ClosingAction::Flush
        }),
{
    match kind {
        ClosingKind::Stale { .. } => if found {
            ClosingAction::MarkBegun
        } else {
            ClosingAction::SettleClean
        },
        ClosingKind::Fallback { .. } => if found {
            ClosingAction::Flush
        } else {
            ClosingAction::SettleClean
        },
        ClosingKind::Reset => if found {
            ClosingAction::Flush
        } else {
            ClosingAction::ResetSession
        },
    }
}

impl ClosingState {
    pub fn new(kind: ClosingKind) -> (r: Self)
        ensures
            r == first_state(kind),
    {
        ClosingState {
            kind,
            doing: match kind {
                ClosingKind::Stale { .. } => ClosingAction::EndEpisodes,
                ClosingKind::Fallback { .. } => ClosingAction::Capture,
                ClosingKind::Reset => ClosingAction::FindSession,
            },
            has_session: false,
            flushed: false,
        }
    }

    /// Goes on once what is being done has ended.
    pub fn next(self, event: ClosingEvent) -> (r: Self)
        ensures
            r == after(self, event),
    {
        let failed = matches!(event, ClosingEvent::Failed);
        let found = matches!(event, ClosingEvent::Found { there: true });
        let is_reset = matches!(self.kind, ClosingKind::Reset);
        let is_stale = matches!(self.kind, ClosingKind::Stale { .. });
        let doing = match self.doing {
            ClosingAction::FindSession => {
                if failed {
                    ClosingAction::Fail
                } else if found {
                    return ClosingState {
                        has_session: true,
                        doing: ClosingAction::EndEpisodes,
                        ..self
                    };
                } else {
                    ClosingAction::ResetSession
                }
            },
            ClosingAction::EndEpisodes => ClosingAction::Capture,
            ClosingAction::Capture => follow_capture(self.kind, found),
            ClosingAction::SettleClean => finish(self.kind),
            ClosingAction::MarkBegun => ClosingAction::Flush,
            ClosingAction::Flush => {
                return ClosingState {
                    flushed: matches!(event, ClosingEvent::Succeeded),
                    doing: ClosingAction::Settle,
                    ..self
                };
            },
            ClosingAction::Settle => follow_settling(self.kind, self.flushed),
            ClosingAction::Archive => if failed {
                finish(self.kind)
            } else {
                ClosingAction::ForgetState
            },
            ClosingAction::ClearTranscript => ClosingAction::ForgetState,
            ClosingAction::ForgetState => if is_reset {
                ClosingAction::Greet
            } else {
                ClosingAction::MarkDirty
            },
            ClosingAction::MarkDirty => if failed && is_stale {
                finish(self.kind)
            } else {
                ClosingAction::Reindex
            },
            ClosingAction::Reindex => finish(self.kind),
            ClosingAction::ResetSession => if self.has_session {
                ClosingAction::ClearTranscript
            } else {
                ClosingAction::Greet
            },
            ClosingAction::Greet => if failed {
                ClosingAction::Fail
            } else {
                ClosingAction::Done
            },
            ClosingAction::Release => ClosingAction::Done,
            ClosingAction::Done => ClosingAction::Done,
            ClosingAction::Fail => ClosingAction::Fail,
        };
        ClosingState { doing, ..self }
    }
}

// Courses

/// The states that a closing goes through.
pub open spec fn closing_course(kind: ClosingKind, events: Seq<ClosingEvent>) -> Seq<ClosingState>
    decreases events.len(),
{
    if events.len() == 0 {
        seq![first_state(kind)]
    } else {
        let before = closing_course(kind, events.drop_last());
        before.push(after(before.last(), events.last()))
    }
}

/// An action was taken on the way.
pub open spec fn did(states: Seq<ClosingState>, action: ClosingAction) -> bool {
    exists|i: int| 0 <= i < states.len() && (#[trigger] states[i]).doing == action
}

/// What was captured has been flushed.
pub open spec fn flush_succeeded(states: Seq<ClosingState>, events: Seq<ClosingEvent>) -> bool {
    exists|i: int|
        0 <= i < events.len() && (#[trigger] states[i]).doing == ClosingAction::Flush && events[i]
            == ClosingEvent::Succeeded
}

/// The steps that are left at most.
pub open spec fn steps_left(action: ClosingAction) -> nat {
    match action {
        ClosingAction::FindSession => 14,
        ClosingAction::EndEpisodes => 13,
        ClosingAction::Capture => 12,
        ClosingAction::MarkBegun => 11,
        ClosingAction::Flush => 10,
        ClosingAction::Settle => 9,
        ClosingAction::SettleClean => 9,
        ClosingAction::Archive => 8,
        ClosingAction::ResetSession => 8,
        ClosingAction::ClearTranscript => 7,
        ClosingAction::ForgetState => 6,
        ClosingAction::MarkDirty => 5,
        ClosingAction::Reindex => 4,
        ClosingAction::Greet => 3,
        ClosingAction::Release => 1,
        ClosingAction::Done => 0,
        ClosingAction::Fail => 0,
    }
}

proof fn course_step(kind: ClosingKind, events: Seq<ClosingEvent>)
    ensures
        closing_course(kind, events).len() == events.len() + 1,
        closing_course(kind, events).last().kind == kind,
        events.len() > 0 ==> closing_course(kind, events) == closing_course(
            kind,
            events.drop_last(),
        ).push(closing_course(kind, events).last()),
        events.len() > 0 ==> closing_course(kind, events).last() == after(
            closing_course(kind, events.drop_last()).last(),
            events.last(),
        ),
    decreases events.len(),
{
    if events.len() > 0 {
        course_step(kind, events.drop_last());
        let before = closing_course(kind, events.drop_last());
        assert(closing_course(kind, events) =~= before.push(closing_course(kind, events).last()));
    }
}

proof fn did_grows(states: Seq<ClosingState>, more: ClosingState)
    ensures
        forall|action: ClosingAction|
            #![trigger did(states.push(more), action)]
            did(states.push(more), action) == (did(states, action) || more.doing == action),
{
    let all = states.push(more);
    assert forall|action: ClosingAction| #![trigger did(all, action)]
        did(all, action) == (did(states, action) || more.doing == action) by {
        if did(states, action) {
            let i = choose|i: int|
                0 <= i < states.len() && (#[trigger] states[i]).doing == action;
            assert(all[i].doing == action);
        }
        if more.doing == action {
            assert(all[states.len() as int].doing == action);
        }
        if did(all, action) {
            let i = choose|i: int| 0 <= i < all.len() && (#[trigger] all[i]).doing == action;
            if i < states.len() {
                assert(states[i].doing == action);
            }
        }
    }
}

proof fn flush_grows(kind: ClosingKind, events: Seq<ClosingEvent>)
    requires
        events.len() > 0,
    ensures
        ({
            let states = closing_course(kind, events);
            let before = closing_course(kind, events.drop_last());
            flush_succeeded(states, events) == (flush_succeeded(before, events.drop_last()) || (
            before.last().doing == ClosingAction::Flush && events.last()
                == ClosingEvent::Succeeded))
        }),
{
    let states = closing_course(kind, events);
    let before = closing_course(kind, events.drop_last());
    let n = events.len() - 1;
    course_step(kind, events);
    course_step(kind, events.drop_last());
    assert(states[n] == before.last());
    if flush_succeeded(before, events.drop_last()) {
        let i = choose|i: int|
            0 <= i < n && (#[trigger] before[i]).doing == ClosingAction::Flush
                && events.drop_last()[i] == ClosingEvent::Succeeded;
        assert(states[i] == before[i]);
    }
    if flush_succeeded(states, events) {
        let i = choose|i: int|
            0 <= i < events.len() && (#[trigger] states[i]).doing == ClosingAction::Flush
                && events[i] == ClosingEvent::Succeeded;
        if i < n {
            assert(before[i] == states[i]);
            assert(events.drop_last()[i] == events[i]);
        }
    }
}

/// A closing comes to an end however its steps end.
pub proof fn closing_comes_to_an_end(kind: ClosingKind, events: Seq<ClosingEvent>)
    ensures
        events.len() >= 14 ==> closing_course(kind, events).last().ended(),
{
    few_steps_are_left(kind, events);
}

proof fn few_steps_are_left(kind: ClosingKind, events: Seq<ClosingEvent>)
    ensures
        ({
            let last = closing_course(kind, events).last();
            last.ended() || steps_left(last.doing) + events.len() <= 14
        }),
    decreases events.len(),
{
    course_step(kind, events);
    if events.len() > 0 {
        few_steps_are_left(kind, events.drop_last());
    }
}

/// A transcript is archived, and the state of its memory forgotten, only where
/// what it held was flushed; only a reset puts both away whatever came of the flush.
pub proof fn unflushed_transcripts_stay(kind: ClosingKind, events: Seq<ClosingEvent>)
    ensures
        ({
            let states = closing_course(kind, events);
            &&& did(states, ClosingAction::Archive) ==> flush_succeeded(states, events)
            &&& kind != ClosingKind::Reset ==> !did(states, ClosingAction::ClearTranscript)
            &&& kind != ClosingKind::Reset && did(states, ClosingAction::ForgetState)
                ==> flush_succeeded(states, events)
        }),
{
    flushing_goes_first(kind, events);
}

proof fn flushing_goes_first(kind: ClosingKind, events: Seq<ClosingEvent>)
    ensures
        ({
            let states = closing_course(kind, events);
            let last = states.last();
            let is_reset = kind == ClosingKind::Reset;
            &&& last.flushed == flush_succeeded(states, events)
            &&& last.doing == ClosingAction::Flush || steps_left(last.doing) > 10 ==> !last.flushed
            &&& did(states, ClosingAction::Archive) ==> last.flushed && steps_left(last.doing) <= 8
            &&& !is_reset ==> !did(states, ClosingAction::ClearTranscript)
            &&& !is_reset && did(states, ClosingAction::ForgetState) ==> last.flushed
                && steps_left(last.doing) <= 6
            &&& !is_reset ==> last.doing != ClosingAction::ResetSession && last.doing
                != ClosingAction::ClearTranscript && last.doing != ClosingAction::FindSession
            &&& is_reset ==> last.doing != ClosingAction::Archive
        }),
    decreases events.len(),
{
    let states = closing_course(kind, events);
    course_step(kind, events);
    if events.len() > 0 {
        flushing_goes_first(kind, events.drop_last());
        let before = closing_course(kind, events.drop_last());
        course_step(kind, events.drop_last());
        did_grows(before, states.last());
        flush_grows(kind, events);
    } else {
        assert(forall|action: ClosingAction|
            did(states, action) ==> action == first_action(kind));
    }
}

/// A claim on an unfinished closing is given up whatever comes of it, and none is
/// given up that was not made.
pub proof fn claims_are_given_up(kind: ClosingKind, events: Seq<ClosingEvent>)
    ensures
        ({
            let states = closing_course(kind, events);
            let claimed = kind == (ClosingKind::Stale { recovering: true });
            &&& claimed && states.last().ended() ==> did(states, ClosingAction::Release)
            &&& did(states, ClosingAction::Release) ==> claimed
        }),
{
    releasing_goes_last(kind, events);
}

proof fn releasing_goes_last(kind: ClosingKind, events: Seq<ClosingEvent>)
    ensures
        ({
            let states = closing_course(kind, events);
            let last = states.last();
            let claimed = kind == (ClosingKind::Stale { recovering: true });
            &&& claimed && last.ended() ==> did(states, ClosingAction::Release)
            &&& did(states, ClosingAction::Release) ==> claimed
            &&& kind != ClosingKind::Reset ==> last.doing != ClosingAction::FindSession
                && last.doing != ClosingAction::ResetSession && last.doing != ClosingAction::Greet
                && last.doing != ClosingAction::ClearTranscript
        }),
    decreases events.len(),
{
    let states = closing_course(kind, events);
    course_step(kind, events);
    if events.len() > 0 {
        releasing_goes_last(kind, events.drop_last());
        let before = closing_course(kind, events.drop_last());
        course_step(kind, events.drop_last());
        did_grows(before, states.last());
    } else {
        assert(forall|action: ClosingAction|
            did(states, action) ==> action == first_action(kind));
    }
}

/// How a closing came out is recorded before it ends, unless the user resets the
/// session; after a reset the agent speaks only in the new session.
pub proof fn closings_are_settled(kind: ClosingKind, events: Seq<ClosingEvent>)
    ensures
        ({
            let states = closing_course(kind, events);
            &&& kind != ClosingKind::Reset && states.last().ended() ==> did(
                states,
                ClosingAction::Settle,
            ) || did(states, ClosingAction::SettleClean)
            &&& did(states, ClosingAction::Greet) ==> did(states, ClosingAction::ResetSession)
        }),
{
    settling_goes_first(kind, events);
}

proof fn settling_goes_first(kind: ClosingKind, events: Seq<ClosingEvent>)
    ensures
        ({
            let states = closing_course(kind, events);
            let last = states.last();
            let is_reset = kind == ClosingKind::Reset;
            &&& !is_reset && steps_left(last.doing) <= 9 ==> did(states, ClosingAction::Settle)
                || did(states, ClosingAction::SettleClean)
            &&& did(states, ClosingAction::Greet) ==> did(states, ClosingAction::ResetSession)
            &&& is_reset && (last.doing == ClosingAction::ClearTranscript || last.doing
                == ClosingAction::ForgetState) ==> did(states, ClosingAction::ResetSession)
            &&& last.doing == ClosingAction::FindSession ==> is_reset
            &&& last.doing == ClosingAction::ResetSession ==> is_reset
            &&& last.doing == ClosingAction::ClearTranscript ==> is_reset
            &&& last.doing == ClosingAction::Greet ==> is_reset
        }),
    decreases events.len(),
{
    let states = closing_course(kind, events);
    course_step(kind, events);
    if events.len() > 0 {
        settling_goes_first(kind, events.drop_last());
        let before = closing_course(kind, events.drop_last());
        course_step(kind, events.drop_last());
        did_grows(before, states.last());
        assert(did(states, states.last().doing));
    } else {
        assert(forall|action: ClosingAction|
            did(states, action) ==> action == first_action(kind));
    }
}

/// A failure ends a closing only where the session cannot be found or the agent
/// cannot speak; every other step is passed over or makes the closing stop early.
pub proof fn few_failures_end_a_closing(state: ClosingState)
    requires
        !state.ended(),
    ensures
        after(state, ClosingEvent::Failed).doing == ClosingAction::Fail <==> state.doing
            == ClosingAction::FindSession || state.doing == ClosingAction::Greet,
        after(state, ClosingEvent::Succeeded).doing != ClosingAction::Fail,
        after(state, ClosingEvent::Failed).kind == state.kind,
        after(state, ClosingEvent::Succeeded).kind == state.kind,
        state.has_session ==> after(state, ClosingEvent::Failed).has_session,
{
}

/// What was captured is flushed, and how that ended is recorded at once; with
/// nothing captured nothing is flushed.
pub proof fn what_is_captured_is_flushed(state: ClosingState, event: ClosingEvent)
    requires
        state.doing == ClosingAction::Capture,
    ensures
        ({
            let next = after(state, (ClosingEvent::Found { there: true }));
            let flush = if state.kind is Stale {
                after(next, event)
            } else {
                next
            };
            &&& flush.doing == ClosingAction::Flush
            &&& state.kind is Stale ==> next.doing == ClosingAction::MarkBegun
            &&& after(flush, event).doing == ClosingAction::Settle
            &&& after(flush, ClosingEvent::Succeeded).flushed
            &&& !after(flush, ClosingEvent::Failed).flushed
            &&& after(state, (ClosingEvent::Found { there: false })).doing
                == if state.kind == ClosingKind::Reset {
                ClosingAction::ResetSession
            } else {
                ClosingAction::SettleClean
            }
        }),
{
}

/// After the record a stale session is archived where its flush succeeded, one
/// that a new session follows only where it was not reset by the user, and a
/// session that is reset is reset whatever came of the flush.
pub proof fn the_record_decides_on_the_archive(state: ClosingState, event: ClosingEvent)
    requires
        state.doing == ClosingAction::Settle,
    ensures
        after(state, event).doing == ClosingAction::Archive <==> state.flushed && (state.kind
            is Stale || (state.kind matches ClosingKind::Fallback { reason } && reason
            != SessionResetReason::Explicit)),
        after(state, event).doing == ClosingAction::ResetSession <==> state.kind
            == ClosingKind::Reset,
        after(state, event).doing == ClosingAction::Release <==> state.kind == (
        ClosingKind::Stale { recovering: true }) && !state.flushed,
{
}

/// A session that is there is cleared when it is reset, transcript and memory,
/// before the agent speaks; without one the agent speaks at once.
pub proof fn reset_sessions_are_cleared(state: ClosingState, event: ClosingEvent, other: ClosingEvent)
    requires
        state.doing == ClosingAction::ResetSession,
        state.kind == ClosingKind::Reset,
    ensures
        !state.has_session ==> after(state, event).doing == ClosingAction::Greet,
        state.has_session ==> {
            let cleared = after(state, event);
            &&& cleared.doing == ClosingAction::ClearTranscript
            &&& after(cleared, other).doing == ClosingAction::ForgetState
            &&& after(after(cleared, other), event).doing == ClosingAction::Greet
        },
{
}

/// An archived session is forgotten, marked and indexed again.
pub proof fn archived_sessions_are_indexed(state: ClosingState)
    requires
        state.doing == ClosingAction::Archive,
        state.kind != ClosingKind::Reset,
    ensures
        ({
            let forgotten = after(state, ClosingEvent::Succeeded);
            let marked = after(forgotten, ClosingEvent::Succeeded);
            let indexed = after(marked, ClosingEvent::Succeeded);
            &&& forgotten.doing == ClosingAction::ForgetState
            &&& marked.doing == ClosingAction::MarkDirty
            &&& indexed.doing == ClosingAction::Reindex
            &&& after(forgotten, ClosingEvent::Failed).doing == ClosingAction::MarkDirty
        }),
{
}

} // verus!
