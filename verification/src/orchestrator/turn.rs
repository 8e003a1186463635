//! The order in which a turn is worked through.
//!
//! The stores, the model and the channels are outside; a turn says what is asked
//! of them next, by how the last step ended.

use crate::orchestrator::inbound;
use crate::orchestrator::inbound::{PreviousSessionStep, SessionResetReason};
use vstd::prelude::*;

verus! {

/// How the answer of a turn reaches the user.
#[derive(Clone, Copy, Debug, PartialEq, Eq, Structural)]
pub enum TurnKind {
    /// As one message.
    Reply,
    /// Piece by piece.
    Stream,
    /// As one message, in a session that was just reset.
    AfterReset,
}

/// What is done in a turn.
#[derive(Clone, Copy, Debug, PartialEq, Eq, Structural)]
pub enum TurnAction {
    /// Flushes are taken up that were left unfinished.
    Recover,
    /// The message is routed.
    Route,
    /// The message is answered without a conversation.
    Answer,
    OpenSession,
    /// The session before is flushed or summarised.
    CareForPrevious(PreviousSessionStep),
    /// The daily notes of the session before are indexed.
    SweepDaily,
    BuildMemory,
    LoadHistory,
    /// The text of the message is prepared for the model.
    Prepare,
    RunRounds,
    /// The text of the reply is prepared for the user.
    Polish,
    WriteRequest,
    WriteReply,
    /// The session is marked for indexing.
    MarkDirty,
    RecordTurn,
    PersistSession,
    Publish,
    StreamReply,
    /// The note that the task was stopped is sent in one piece.
    SendStopped,
    Done,
    Fail,
}

/// How a step of a turn ended.
#[derive(Clone, Copy, Debug, PartialEq, Eq, Structural)]
pub enum TurnEvent {
    Succeeded,
    Failed,
    Routed { converse: bool },
    Opened { reason: Option<SessionResetReason>, has_previous: bool },
    RoundsEnded { cancelled: bool },
}

/// How far a turn has come.
#[derive(Clone, Copy, Debug, PartialEq, Eq, Structural)]
pub struct TurnState {
    pub kind: TurnKind,
    pub is_scheduled_task: bool,
    /// What is being done.
    pub doing: TurnAction,
    /// Something was written to the transcript.
    pub written: bool,
    /// The user has stopped the task.
    pub cancelled: bool,
}

// Steps

pub open spec fn first_state(kind: TurnKind, is_scheduled_task: bool) -> TurnState {
    TurnState {
        kind,
        is_scheduled_task,
        doing: if kind == TurnKind::AfterReset {
            TurnAction::OpenSession
        } else {
            TurnAction::Recover
        },
        written: false,
        cancelled: false,
    }
}

impl TurnState {
    pub open spec fn ended(self) -> bool {
        self.doing == TurnAction::Done || self.doing == TurnAction::Fail
    }

    pub open spec fn goes_on_with(self, doing: TurnAction) -> TurnState {
        TurnState { doing, ..self }
    }
}

/// What follows the transcript: a reply to the user is recorded as a turn of the
/// session, unless a schedule asked for it.
pub open spec fn after_transcript(state: TurnState) -> TurnAction {
    match state.kind {
        TurnKind::Reply => if state.is_scheduled_task {
            TurnAction::PersistSession
        } else {
            TurnAction::RecordTurn
        },
        TurnKind::Stream => TurnAction::PersistSession,
        TurnKind::AfterReset => TurnAction::Publish,
    }
}

/// What follows an opened session.
pub open spec fn after_opening(
    state: TurnState,
    reason: Option<SessionResetReason>,
    has_previous: bool,
) -> TurnAction {
    if state.kind == TurnKind::AfterReset {
        TurnAction::RunRounds
    } else {
        match inbound::care_for_previous(reason, has_previous) {
            PreviousSessionStep::Nothing => TurnAction::BuildMemory,
            step => TurnAction::CareForPrevious(step),
        }
    }
}

/// The state after a step that ended in some way. Where a step cannot be done
/// without, its failure ends the turn; failures of the other steps are passed over.
pub open spec fn after(state: TurnState, event: TurnEvent) -> TurnState {
    let failed = event == TurnEvent::Failed;
    match state.doing {
        TurnAction::Recover => state.goes_on_with(
            if state.kind == TurnKind::Reply {
                TurnAction::Route
            } else {
                TurnAction::OpenSession
            },
        ),
        TurnAction::Route => state.goes_on_with(
            if event == (TurnEvent::Routed { converse: true }) {
                TurnAction::OpenSession
            } else {
                TurnAction::Answer
            },
        ),
        TurnAction::Answer => state.goes_on_with(
            if failed {
                TurnAction::Fail
            } else {
                TurnAction::Done
            },
        ),
        TurnAction::OpenSession => match event {
            TurnEvent::Opened { reason, has_previous } => state.goes_on_with(
                after_opening(state, reason, has_previous),
            ),
            _ => state.goes_on_with(TurnAction::Fail),
        },
        TurnAction::CareForPrevious(_) => state.goes_on_with(TurnAction::SweepDaily),
        TurnAction::SweepDaily => state.goes_on_with(TurnAction::BuildMemory),
        TurnAction::BuildMemory => state.goes_on_with(
            if failed {
                TurnAction::Fail
            } else {
                TurnAction::LoadHistory
            },
        ),
        TurnAction::LoadHistory => state.goes_on_with(TurnAction::Prepare),
        TurnAction::Prepare => state.goes_on_with(
            if failed {
                TurnAction::Fail
            } else {
                TurnAction::RunRounds
            },
        ),
        TurnAction::RunRounds => match event {
            TurnEvent::RoundsEnded { cancelled } => TurnState {
                cancelled,
                doing: if state.kind == TurnKind::Stream && !cancelled {
                    TurnAction::PersistSession
                } else {
                    TurnAction::Polish
                },
                ..state
            },
            _ => state.goes_on_with(TurnAction::Fail),
        },
        TurnAction::Polish => state.goes_on_with(
            if failed {
                TurnAction::Fail
            } else {
                TurnAction::WriteRequest
            },
        ),
        TurnAction::WriteRequest => TurnState {
            written: state.written || !failed,
            doing: TurnAction::WriteReply,
            ..state
        },
        TurnAction::WriteReply => TurnState {
            written: state.written || !failed,
            doing: if state.written || !failed || state.kind == TurnKind::Stream {
                TurnAction::MarkDirty
            } else {
                after_transcript(state)
            },
            ..state
        },
        TurnAction::MarkDirty => state.goes_on_with(after_transcript(state)),
        TurnAction::RecordTurn => state.goes_on_with(TurnAction::PersistSession),
        TurnAction::PersistSession => state.goes_on_with(
            match state.kind {
                TurnKind::Stream => if state.cancelled {
                    TurnAction::SendStopped
                } else {
                    TurnAction::StreamReply
                },
                _ => TurnAction::Publish,
            },
        ),
        TurnAction::Publish => state.goes_on_with(TurnAction::Done),
        TurnAction::StreamReply => state.goes_on_with(
            if failed {
                TurnAction::Fail
            } else {
                TurnAction::Done
            },
        ),
        TurnAction::SendStopped => state.goes_on_with(TurnAction::Done),
        TurnAction::Done => state,
        TurnAction::Fail => state,
    }
}

fn follow_transcript(state: TurnState) -> (r: TurnAction)
    ensures
        r == after_transcript(state),
{
    match state.kind {
        TurnKind::Reply => if state.is_scheduled_task {
            TurnAction::PersistSession
        } else {
            TurnAction::RecordTurn
        },
        TurnKind::Stream => TurnAction::PersistSession,
        TurnKind::AfterReset => TurnAction::Publish,
    }
}

fn follow_opening(
    state: TurnState,
    reason: Option<SessionResetReason>,
    has_previous: bool,
) -> (r: TurnAction)
    ensures
        r == after_opening(state, reason, has_previous),
{
    if state.kind == TurnKind::AfterReset {
        return TurnAction::RunRounds;
    }
    match inbound::previous_session_step(reason, has_previous) {
        PreviousSessionStep::Nothing => TurnAction::BuildMemory,
        step => TurnAction::CareForPrevious(step),
    }
}

impl TurnState {
    pub fn new(kind: TurnKind, is_scheduled_task: bool) -> (r: Self)
        ensures
            r == first_state(kind, is_scheduled_task),
    {
        TurnState {
            kind,
            is_scheduled_task,
            doing: match kind {
                TurnKind::AfterReset => TurnAction::OpenSession,
                _ => TurnAction::Recover,
            },
            written: false,
            cancelled: false,
        }
    }

    /// Goes on once what is being done has ended.
    pub fn next(self, event: TurnEvent) -> (r: Self)
        ensures
            r == after(self, event),
    {
        let failed = matches!(event, TurnEvent::Failed);
        let doing = match self.doing {
            TurnAction::Recover => match self.kind {
                TurnKind::Reply => TurnAction::Route,
                _ => TurnAction::OpenSession,
            },
            TurnAction::Route => match event {
                TurnEvent::Routed { converse: true } => TurnAction::OpenSession,
                _ => TurnAction::Answer,
            },
            TurnAction::Answer => if failed {
                TurnAction::Fail
            } else {
                TurnAction::Done
            },
            TurnAction::OpenSession => match event {
                TurnEvent::Opened { reason, has_previous } => follow_opening(
                    self,
                    reason,
                    has_previous,
                ),
                _ => TurnAction::Fail,
            },
            TurnAction::CareForPrevious(_) => TurnAction::SweepDaily,
            TurnAction::SweepDaily => TurnAction::BuildMemory,
            TurnAction::BuildMemory => if failed {
                TurnAction::Fail
            } else {
                TurnAction::LoadHistory
            },
            TurnAction::LoadHistory => TurnAction::Prepare,
            TurnAction::Prepare => if failed {
                TurnAction::Fail
            } else {
                TurnAction::RunRounds
            },
            TurnAction::RunRounds => match event {
                TurnEvent::RoundsEnded { cancelled } => {
                    let doing = if self.kind == TurnKind::Stream && !cancelled {
                        TurnAction::PersistSession
                    } else {
                        TurnAction::Polish
                    };
                    return TurnState { cancelled, doing, ..self };
                },
                _ => TurnAction::Fail,
            },
            TurnAction::Polish => if failed {
                TurnAction::Fail
            } else {
                TurnAction::WriteRequest
            },
            TurnAction::WriteRequest => {
                return TurnState {
                    written: self.written || !failed,
                    doing: TurnAction::WriteReply,
                    ..self
                };
            },
            TurnAction::WriteReply => {
                let written = self.written || !failed;
                let doing = if written || self.kind == TurnKind::Stream {
                    TurnAction::MarkDirty
                } else {
                    follow_transcript(self)
                };
                return TurnState { written, doing, ..self };
            },
            TurnAction::MarkDirty => follow_transcript(self),
            TurnAction::RecordTurn => TurnAction::PersistSession,
            TurnAction::PersistSession => match self.kind {
                TurnKind::Stream => if self.cancelled {
                    TurnAction::SendStopped
                } else {
                    TurnAction::StreamReply
                },
                _ => TurnAction::Publish,
            },
            TurnAction::Publish => TurnAction::Done,
            TurnAction::StreamReply => if failed {
                TurnAction::Fail
            } else {
                TurnAction::Done
            },
            TurnAction::SendStopped => TurnAction::Done,
            TurnAction::Done => TurnAction::Done,
            TurnAction::Fail => TurnAction::Fail,
        };
        TurnState { doing, ..self }
    }
}

// Courses

/// The states that a turn goes through, from `state` on.
pub open spec fn course(state: TurnState, events: Seq<TurnEvent>) -> Seq<TurnState>
    decreases events.len(),
{
    if events.len() == 0 {
        seq![state]
    } else {
        let before = course(state, events.drop_last());
        before.push(after(before.last(), events.last()))
    }
}

/// The states of a whole turn.
pub open spec fn turn_course(
    kind: TurnKind,
    is_scheduled_task: bool,
    events: Seq<TurnEvent>,
) -> Seq<TurnState> {
    course(first_state(kind, is_scheduled_task), events)
}

/// An action was taken on the way.
pub open spec fn did(states: Seq<TurnState>, action: TurnAction) -> bool {
    exists|i: int| 0 <= i < states.len() && (#[trigger] states[i]).doing == action
}

/// The steps that are left at most.
pub open spec fn steps_left(action: TurnAction) -> nat {
    match action {
        TurnAction::Recover => 18,
        TurnAction::Route => 17,
        TurnAction::OpenSession => 16,
        TurnAction::CareForPrevious(_) => 15,
        TurnAction::SweepDaily => 14,
        TurnAction::BuildMemory => 13,
        TurnAction::LoadHistory => 12,
        TurnAction::Prepare => 11,
        TurnAction::RunRounds => 10,
        TurnAction::Polish => 9,
        TurnAction::WriteRequest => 8,
        TurnAction::WriteReply => 7,
        TurnAction::MarkDirty => 6,
        TurnAction::RecordTurn => 5,
        TurnAction::PersistSession => 4,
        TurnAction::Publish => 1,
        TurnAction::StreamReply => 1,
        TurnAction::SendStopped => 1,
        TurnAction::Answer => 1,
        TurnAction::Done => 0,
        TurnAction::Fail => 0,
    }
}

proof fn course_len(state: TurnState, events: Seq<TurnEvent>)
    ensures
        course(state, events).len() == events.len() + 1,
        events.len() > 0 ==> course(state, events).drop_last() == course(
            state,
            events.drop_last(),
        ),
        events.len() > 0 ==> course(state, events).last() == after(
            course(state, events.drop_last()).last(),
            events.last(),
        ),
    decreases events.len(),
{
    if events.len() > 0 {
        course_len(state, events.drop_last());
        let before = course(state, events.drop_last());
        assert(course(state, events).drop_last() =~= before);
    }
}

/// A turn comes to an end however its steps end: with every step fewer are left.
pub proof fn turn_comes_to_an_end(
    kind: TurnKind,
    is_scheduled_task: bool,
    events: Seq<TurnEvent>,
)
    ensures
        events.len() >= 18 ==> turn_course(kind, is_scheduled_task, events).last().ended(),
{
    few_steps_are_left(first_state(kind, is_scheduled_task), events);
}

proof fn few_steps_are_left(state: TurnState, events: Seq<TurnEvent>)
    ensures
        ({
            let last = course(state, events).last();
            last.ended() || steps_left(last.doing) + events.len() <= steps_left(state.doing)
        }),
    decreases events.len(),
{
    course_len(state, events);
    if events.len() > 0 {
        few_steps_are_left(state, events.drop_last());
    }
}

proof fn did_grows(states: Seq<TurnState>, more: TurnState)
    ensures
        forall|action: TurnAction|
            #![trigger did(states.push(more), action)]
            did(states.push(more), action) == (did(states, action) || more.doing == action),
{
    let all = states.push(more);
    assert forall|action: TurnAction| #![trigger did(all, action)]
        did(all, action) == (did(states, action) || more.doing == action) by {
        if did(states, action) {
            let i = choose|i: int|
                0 <= i < states.len() && (#[trigger] states[i]).doing == action;
            assert(all[i].doing == action);
        }
        if more.doing == action {
            assert(all[states.len() as int].doing == action);
        }
        if did(all, action) {
            let i = choose|i: int| 0 <= i < all.len() && (#[trigger] all[i]).doing == action;
            if i < states.len() {
                assert(states[i].doing == action);
            }
        }
    }
}

/// A course keeps what every step keeps.
proof fn kind_stays(state: TurnState, events: Seq<TurnEvent>)
    ensures
        course(state, events).last().kind == state.kind,
        course(state, events).last().is_scheduled_task == state.is_scheduled_task,
    decreases events.len(),
{
    course_len(state, events);
    if events.len() > 0 {
        kind_stays(state, events.drop_last());
    }
}

/// What is answered without a conversation asks no model.
pub proof fn commands_ask_no_model(is_scheduled_task: bool, events: Seq<TurnEvent>)
    ensures
        ({
            let states = turn_course(TurnKind::Reply, is_scheduled_task, events);
            did(states, TurnAction::Answer) ==> !did(states, TurnAction::OpenSession) && !did(
                states,
                TurnAction::RunRounds,
            )
        }),
{
    answers_open_nothing(is_scheduled_task, events);
}

proof fn answers_open_nothing(is_scheduled_task: bool, events: Seq<TurnEvent>)
    ensures
        ({
            let states = turn_course(TurnKind::Reply, is_scheduled_task, events);
            let last = states.last().doing;
            &&& did(states, TurnAction::OpenSession) ==> !did(states, TurnAction::Answer)
            &&& did(states, TurnAction::RunRounds) ==> did(states, TurnAction::OpenSession)
            &&& did(states, TurnAction::Answer) ==> last == TurnAction::Answer || last
                == TurnAction::Done || last == TurnAction::Fail
            &&& last == TurnAction::Recover || last == TurnAction::Route ==> !did(
                states,
                TurnAction::OpenSession,
            ) && !did(states, TurnAction::Answer)
            &&& 2 <= steps_left(last) <= 16 || last == TurnAction::Publish ==> did(
                states,
                TurnAction::OpenSession,
            )
            &&& last != TurnAction::StreamReply && last != TurnAction::SendStopped
        }),
    decreases events.len(),
{
    let state = first_state(TurnKind::Reply, is_scheduled_task);
    let states = course(state, events);
    course_len(state, events);
    kind_stays(state, events);
    if events.len() > 0 {
        answers_open_nothing(is_scheduled_task, events.drop_last());
        let before = course(state, events.drop_last());
        kind_stays(state, events.drop_last());
        did_grows(before, states.last());
        assert(states =~= before.push(states.last()));
    } else {
        assert(states[0].doing == TurnAction::Recover);
        assert(forall|action: TurnAction| did(states, action) ==> action == TurnAction::Recover);
    }
}

/// The reply went out in one message or as the note that the task was stopped.
pub open spec fn answered(states: Seq<TurnState>) -> bool {
    did(states, TurnAction::Publish) || did(states, TurnAction::SendStopped)
}

/// A message is written to the transcript, and so is its reply, before the reply
/// goes out; a stream goes out unwritten unless it was stopped.
pub proof fn replies_are_written_before_they_go_out(
    kind: TurnKind,
    is_scheduled_task: bool,
    events: Seq<TurnEvent>,
)
    ensures
        ({
            let states = turn_course(kind, is_scheduled_task, events);
            answered(states) ==> did(states, TurnAction::WriteRequest) && did(
                states,
                TurnAction::WriteReply,
            )
        }),
{
    writing_goes_first(kind, is_scheduled_task, events);
}

proof fn writing_goes_first(kind: TurnKind, is_scheduled_task: bool, events: Seq<TurnEvent>)
    ensures
        ({
            let states = turn_course(kind, is_scheduled_task, events);
            let last = states.last();
            let both = did(states, TurnAction::WriteRequest) && did(
                states,
                TurnAction::WriteReply,
            );
            &&& answered(states) ==> both
            &&& last.doing == TurnAction::WriteReply ==> did(states, TurnAction::WriteRequest)
            &&& last.doing == TurnAction::MarkDirty || last.doing == TurnAction::RecordTurn ==> both
            &&& last.doing == TurnAction::PersistSession ==> both || (kind == TurnKind::Stream
                && !last.cancelled)
        }),
    decreases events.len(),
{
    let state = first_state(kind, is_scheduled_task);
    let states = course(state, events);
    course_len(state, events);
    if events.len() > 0 {
        writing_goes_first(kind, is_scheduled_task, events.drop_last());
        let before = course(state, events.drop_last());
        kind_stays(state, events.drop_last());
        did_grows(before, states.last());
        assert(states =~= before.push(states.last()));
        assert(did(states, states.last().doing));
    } else {
        assert(forall|action: TurnAction| did(states, action) ==> action == state.doing);
    }
}

/// What a schedule asks for never becomes a turn of the session's episodes; every
/// other reply that goes out has become one.
pub proof fn only_talk_is_recorded(
    kind: TurnKind,
    is_scheduled_task: bool,
    events: Seq<TurnEvent>,
)
    ensures
        ({
            let states = turn_course(kind, is_scheduled_task, events);
            &&& did(states, TurnAction::RecordTurn) ==> kind == TurnKind::Reply
                && !is_scheduled_task
            &&& kind == TurnKind::Reply && !is_scheduled_task && answered(states) ==> did(
                states,
                TurnAction::RecordTurn,
            )
        }),
{
    recording_goes_first(kind, is_scheduled_task, events);
}

proof fn recording_goes_first(kind: TurnKind, is_scheduled_task: bool, events: Seq<TurnEvent>)
    ensures
        ({
            let states = turn_course(kind, is_scheduled_task, events);
            let last = states.last();
            &&& did(states, TurnAction::RecordTurn) ==> kind == TurnKind::Reply
                && !is_scheduled_task
            &&& kind == TurnKind::Reply && !is_scheduled_task && (answered(states) || last.doing
                == TurnAction::PersistSession) ==> did(states, TurnAction::RecordTurn)
        }),
    decreases events.len(),
{
    let state = first_state(kind, is_scheduled_task);
    let states = course(state, events);
    course_len(state, events);
    if events.len() > 0 {
        recording_goes_first(kind, is_scheduled_task, events.drop_last());
        let before = course(state, events.drop_last());
        kind_stays(state, events.drop_last());
        did_grows(before, states.last());
        assert(states =~= before.push(states.last()));
        assert(did(states, states.last().doing));
    } else {
        assert(forall|action: TurnAction| did(states, action) ==> action == state.doing);
    }
}

/// A message or a reply was written to the transcript.
pub open spec fn wrote(states: Seq<TurnState>, events: Seq<TurnEvent>) -> bool {
    exists|i: int|
        0 <= i < events.len() && ((#[trigger] states[i]).doing == TurnAction::WriteRequest
            || states[i].doing == TurnAction::WriteReply) && events[i] != TurnEvent::Failed
}

/// A session is marked for indexing before a message goes out exactly where
/// something was written to its transcript.
pub proof fn what_is_written_is_marked(
    kind: TurnKind,
    is_scheduled_task: bool,
    events: Seq<TurnEvent>,
)
    ensures
        ({
            let states = turn_course(kind, is_scheduled_task, events);
            did(states, TurnAction::Publish) ==> (did(states, TurnAction::MarkDirty) <==> wrote(
                states,
                events,
            ))
        }),
{
    marking_goes_first(kind, is_scheduled_task, events);
}

proof fn wrote_grows(states: Seq<TurnState>, events: Seq<TurnEvent>)
    requires
        events.len() > 0,
        states.len() == events.len() + 1,
    ensures
        ({
            let n = events.len() - 1;
            let writes = states[n].doing == TurnAction::WriteRequest || states[n].doing
                == TurnAction::WriteReply;
            wrote(states, events) == (wrote(states.drop_last(), events.drop_last()) || (writes
                && events[n] != TurnEvent::Failed))
        }),
{
    let n = events.len() - 1;
    let less = states.drop_last();
    if wrote(less, events.drop_last()) {
        let i = choose|i: int|
            0 <= i < n && ((#[trigger] less[i]).doing == TurnAction::WriteRequest || less[i].doing
                == TurnAction::WriteReply) && events.drop_last()[i] != TurnEvent::Failed;
        assert(states[i] == less[i]);
    }
    if wrote(states, events) {
        let i = choose|i: int|
            0 <= i < events.len() && ((#[trigger] states[i]).doing == TurnAction::WriteRequest
                || states[i].doing == TurnAction::WriteReply) && events[i] != TurnEvent::Failed;
        if i < n {
            assert(less[i] == states[i]);
            assert(events.drop_last()[i] == events[i]);
        }
    }
}

proof fn marking_goes_first(kind: TurnKind, is_scheduled_task: bool, events: Seq<TurnEvent>)
    ensures
        ({
            let states = turn_course(kind, is_scheduled_task, events);
            let last = states.last();
            let left = steps_left(last.doing);
            &&& last.written == wrote(states, events)
            &&& kind == TurnKind::Stream ==> !did(states, TurnAction::Publish)
            &&& did(states, TurnAction::Publish) ==> (last.doing == TurnAction::Publish
                || last.ended()) && (did(states, TurnAction::MarkDirty) <==> last.written)
            &&& left > 6 ==> !did(states, TurnAction::MarkDirty)
            &&& last.doing == TurnAction::MarkDirty && kind != TurnKind::Stream ==> last.written
            &&& 2 <= left <= 5 && kind != TurnKind::Stream ==> (did(states, TurnAction::MarkDirty)
                <==> last.written)
        }),
    decreases events.len(),
{
    let state = first_state(kind, is_scheduled_task);
    let states = course(state, events);
    course_len(state, events);
    if events.len() > 0 {
        marking_goes_first(kind, is_scheduled_task, events.drop_last());
        let before = course(state, events.drop_last());
        course_len(state, events.drop_last());
        kind_stays(state, events.drop_last());
        did_grows(before, states.last());
        wrote_grows(states, events);
        assert(states =~= before.push(states.last()));
        assert(states[events.len() - 1] == before.last());
        assert(did(states, states.last().doing));
    } else {
        assert(forall|action: TurnAction| did(states, action) ==> action == state.doing);
    }
}

/// What a reply rests on was there before it: a session was opened and the model
/// asked, and outside of a reset the memories were gathered, the history loaded,
/// the message prepared and the session kept.
pub proof fn replies_rest_on_what_went_before(
    kind: TurnKind,
    is_scheduled_task: bool,
    events: Seq<TurnEvent>,
)
    ensures
        ({
            let states = turn_course(kind, is_scheduled_task, events);
            answered(states) || did(states, TurnAction::StreamReply) ==> {
                &&& did(states, TurnAction::OpenSession)
                &&& did(states, TurnAction::RunRounds)
                &&& answered(states) ==> did(states, TurnAction::Polish)
                &&& kind != TurnKind::AfterReset ==> {
                    &&& did(states, TurnAction::BuildMemory)
                    &&& did(states, TurnAction::LoadHistory)
                    &&& did(states, TurnAction::Prepare)
                    &&& did(states, TurnAction::PersistSession)
                }
            }
        }),
{
    asking_goes_first(kind, is_scheduled_task, events);
}

proof fn asking_goes_first(kind: TurnKind, is_scheduled_task: bool, events: Seq<TurnEvent>)
    ensures
        ({
            let states = turn_course(kind, is_scheduled_task, events);
            let last = states.last();
            let gone_out = answered(states) || did(states, TurnAction::StreamReply);
            let prepared = did(states, TurnAction::BuildMemory) && did(
                states,
                TurnAction::LoadHistory,
            ) && did(states, TurnAction::Prepare);
            let asking = match last.doing {
                TurnAction::RunRounds => true,
                TurnAction::Polish => true,
                TurnAction::WriteRequest => true,
                TurnAction::WriteReply => true,
                TurnAction::MarkDirty => true,
                TurnAction::RecordTurn => true,
                TurnAction::PersistSession => true,
                TurnAction::Publish => true,
                TurnAction::StreamReply => true,
                TurnAction::SendStopped => true,
                _ => false,
            };
            let polished = match last.doing {
                TurnAction::Polish => true,
                TurnAction::WriteRequest => true,
                TurnAction::WriteReply => true,
                TurnAction::MarkDirty => true,
                TurnAction::RecordTurn => true,
                TurnAction::PersistSession => kind != TurnKind::Stream || last.cancelled,
                TurnAction::Publish => true,
                TurnAction::SendStopped => true,
                _ => false,
            };
            let opened = match last.doing {
                TurnAction::OpenSession => true,
                TurnAction::CareForPrevious(_) => true,
                TurnAction::SweepDaily => true,
                TurnAction::BuildMemory => true,
                TurnAction::LoadHistory => true,
                TurnAction::Prepare => true,
                _ => false,
            };
            &&& opened || asking || gone_out ==> did(states, TurnAction::OpenSession)
            &&& asking || gone_out ==> did(states, TurnAction::RunRounds) && (kind
                != TurnKind::AfterReset ==> prepared)
            &&& polished || answered(states) ==> did(states, TurnAction::Polish)
            &&& last.doing == TurnAction::LoadHistory ==> did(states, TurnAction::BuildMemory)
            &&& last.doing == TurnAction::Prepare ==> did(states, TurnAction::BuildMemory) && did(
                states,
                TurnAction::LoadHistory,
            )
            &&& gone_out && kind != TurnKind::AfterReset ==> did(states, TurnAction::PersistSession)
            &&& last.doing == TurnAction::StreamReply || last.doing == TurnAction::SendStopped
                ==> kind == TurnKind::Stream
            &&& last.doing == TurnAction::SendStopped ==> last.cancelled
        }),
    decreases events.len(),
{
    let state = first_state(kind, is_scheduled_task);
    let states = course(state, events);
    course_len(state, events);
    if events.len() > 0 {
        asking_goes_first(kind, is_scheduled_task, events.drop_last());
        let before = course(state, events.drop_last());
        kind_stays(state, events.drop_last());
        did_grows(before, states.last());
        assert(states =~= before.push(states.last()));
        assert(did(states, states.last().doing));
    } else {
        assert(did(states, states[0].doing));
        assert(forall|action: TurnAction| did(states, action) ==> action == state.doing);
    }
}

/// A failure ends a turn exactly where the step cannot be done without: the
/// answer to a command, the session, the memories, the preparation, the rounds,
/// the last touches to a reply, and a stream. No other step ends in a failure.
pub proof fn some_failures_end_a_turn(state: TurnState)
    requires
        !state.ended(),
    ensures
        after(state, TurnEvent::Failed).doing == TurnAction::Fail <==> state.doing
            == TurnAction::Answer || state.doing == TurnAction::OpenSession || state.doing
            == TurnAction::BuildMemory || state.doing == TurnAction::Prepare || state.doing
            == TurnAction::RunRounds || state.doing == TurnAction::Polish || state.doing
            == TurnAction::StreamReply,
        state.doing != TurnAction::OpenSession && state.doing != TurnAction::RunRounds ==> after(
            state,
            TurnEvent::Succeeded,
        ).doing != TurnAction::Fail,
        after(state, TurnEvent::Failed).kind == state.kind,
        after(state, TurnEvent::Failed).is_scheduled_task == state.is_scheduled_task,
        state.written ==> after(state, TurnEvent::Failed).written && after(
            state,
            TurnEvent::Succeeded,
        ).written,
        state.cancelled ==> after(state, TurnEvent::Failed).cancelled && after(
            state,
            TurnEvent::Succeeded,
        ).cancelled,
{
}

/// A session that ended before this one is cared for, and its daily notes are
/// indexed, before anything is remembered for the reply.
pub proof fn the_session_before_is_cared_for(state: TurnState, reason: SessionResetReason)
    requires
        state.doing == TurnAction::OpenSession,
        state.kind != TurnKind::AfterReset,
    ensures
        ({
            let next = after(
                state,
                (TurnEvent::Opened { reason: Some(reason), has_previous: true }),
            );
            &&& next.doing == TurnAction::CareForPrevious(
                if reason == SessionResetReason::Explicit {
                    PreviousSessionStep::Summarize
                } else {
                    PreviousSessionStep::FlushStale
                },
            )
            &&& forall|event: TurnEvent|
                (#[trigger] after(next, event)).doing == TurnAction::SweepDaily
            &&& forall|event: TurnEvent, other: TurnEvent|
                (#[trigger] after(after(next, event), other)).doing == TurnAction::BuildMemory
            &&& after(
                state,
                (TurnEvent::Opened { reason: None, has_previous: true }),
            ).doing == TurnAction::BuildMemory
            &&& after(
                state,
                (TurnEvent::Opened { reason: Some(reason), has_previous: false }),
            ).doing == TurnAction::BuildMemory
        }),
{
}

/// A stream that was stopped ends with a note, and no other stream does.
pub proof fn stopped_streams_say_so(state: TurnState, cancelled: bool, event: TurnEvent)
    requires
        state.kind == TurnKind::Stream,
    ensures
        state.doing == TurnAction::RunRounds ==> after(
            state,
            (TurnEvent::RoundsEnded { cancelled }),
        ).cancelled == cancelled,
        state.doing == TurnAction::PersistSession && state.cancelled ==> after(state, event).doing
            == TurnAction::SendStopped,
        state.doing == TurnAction::PersistSession && !state.cancelled ==> after(state, event).doing
            == TurnAction::StreamReply,
{
}

/// A turn begins with what was left unfinished, and in a session that was reset
/// with the session itself. A message that is answered at once is routed before
/// anything else, and one that is streamed is not routed.
pub proof fn turns_begin_where_they_should(
    kind: TurnKind,
    is_scheduled_task: bool,
    event: TurnEvent,
    converse: bool,
)
    ensures
        ({
            let first = first_state(kind, is_scheduled_task);
            let next = after(first, event);
            &&& first.kind == kind && first.is_scheduled_task == is_scheduled_task
            &&& !first.written && !first.cancelled
            &&& kind == TurnKind::AfterReset <==> first.doing == TurnAction::OpenSession
            &&& kind != TurnKind::AfterReset <==> first.doing == TurnAction::Recover
            &&& kind == TurnKind::Reply ==> next.doing == TurnAction::Route
            &&& kind == TurnKind::Stream ==> next.doing == TurnAction::OpenSession
            &&& kind == TurnKind::Reply && converse ==> after(
                next,
                (TurnEvent::Routed { converse }),
            ).doing == TurnAction::OpenSession
            &&& kind == TurnKind::Reply && !converse ==> after(
                next,
                (TurnEvent::Routed { converse }),
            ).doing == TurnAction::Answer
        }),
{
}

/// The steps of a turn that go well follow one another: memories, history,
/// preparation, rounds, last touches, transcript, session, and the reply.
pub proof fn good_steps_follow_one_another(state: TurnState)
    ensures
        ({
            let next = after(state, TurnEvent::Succeeded).doing;
            let ended = after(state, (TurnEvent::RoundsEnded { cancelled: false })).doing;
            &&& state.doing == TurnAction::BuildMemory ==> next == TurnAction::LoadHistory
            &&& state.doing == TurnAction::LoadHistory ==> next == TurnAction::Prepare
            &&& state.doing == TurnAction::Prepare ==> next == TurnAction::RunRounds
            &&& state.doing == TurnAction::RunRounds && state.kind == TurnKind::Stream ==> ended
                == TurnAction::PersistSession
            &&& state.doing == TurnAction::RunRounds && state.kind != TurnKind::Stream ==> ended
                == TurnAction::Polish
            &&& state.doing == TurnAction::Polish ==> next == TurnAction::WriteRequest
            &&& state.doing == TurnAction::WriteRequest ==> next == TurnAction::WriteReply
            &&& state.doing == TurnAction::WriteReply ==> next == TurnAction::MarkDirty
            &&& state.doing == TurnAction::RecordTurn ==> next == TurnAction::PersistSession
            &&& state.doing == TurnAction::MarkDirty && state.kind == TurnKind::AfterReset ==> next
                == TurnAction::Publish
            &&& state.doing == TurnAction::MarkDirty && state.kind == TurnKind::Stream ==> next
                == TurnAction::PersistSession
            &&& state.doing == TurnAction::MarkDirty && state.kind == TurnKind::Reply ==> next
                == if state.is_scheduled_task {
                TurnAction::PersistSession
            } else {
                TurnAction::RecordTurn
            }
            &&& state.doing == TurnAction::PersistSession && state.kind != TurnKind::Stream ==> next
                == TurnAction::Publish
            &&& state.doing == TurnAction::Publish || state.doing == TurnAction::SendStopped
                || state.doing == TurnAction::StreamReply || state.doing == TurnAction::Answer
                ==> next == TurnAction::Done
        }),
{
}

} // verus!
