use clawhive_core::orchestrator::closing::{
    ClosingAction, ClosingEvent, ClosingKind, ClosingState,
};
use clawhive_core::orchestrator::inbound::{PreviousSessionStep, SessionResetReason};
use clawhive_core::orchestrator::summary::{lineage_links, LineageLink};
use clawhive_core::orchestrator::turn::{TurnAction, TurnEvent, TurnKind, TurnState};

/// The usual end of each step of a turn.
fn usual(action: TurnAction) -> TurnEvent {
    match action {
        TurnAction::Route => TurnEvent::Routed { converse: true },
        TurnAction::OpenSession => TurnEvent::Opened {
            reason: None,
            has_previous: false,
        },
        TurnAction::RunRounds => TurnEvent::RoundsEnded { cancelled: false },
        _ => TurnEvent::Succeeded,
    }
}

/// The actions of a turn whose steps end as `event` says.
fn turn(
    kind: TurnKind,
    scheduled: bool,
    event: impl Fn(TurnAction) -> TurnEvent,
) -> Vec<TurnAction> {
    let mut state = TurnState::new(kind, scheduled);
    let mut actions = vec![state.doing];
    for _ in 0..18 {
        if matches!(state.doing, TurnAction::Done | TurnAction::Fail) {
            break;
        }
        state = state.next(event(state.doing));
        actions.push(state.doing);
    }
    assert!(matches!(state.doing, TurnAction::Done | TurnAction::Fail));
    actions
}

#[test]
fn a_turn_goes_its_way() {
    assert_eq!(
        turn(TurnKind::Reply, false, usual),
        vec![
            TurnAction::Recover,
            TurnAction::Route,
            TurnAction::OpenSession,
            TurnAction::BuildMemory,
            TurnAction::LoadHistory,
            TurnAction::Prepare,
            TurnAction::RunRounds,
            TurnAction::Polish,
            TurnAction::WriteRequest,
            TurnAction::WriteReply,
            TurnAction::MarkDirty,
            TurnAction::RecordTurn,
            TurnAction::PersistSession,
            TurnAction::Publish,
            TurnAction::Done,
        ]
    );
}

#[test]
fn a_command_is_answered_at_once() {
    let actions = turn(TurnKind::Reply, false, |action| match action {
        TurnAction::Route => TurnEvent::Routed { converse: false },
        other => usual(other),
    });
    assert_eq!(
        actions,
        vec![
            TurnAction::Recover,
            TurnAction::Route,
            TurnAction::Answer,
            TurnAction::Done
        ]
    );
}

#[test]
fn the_session_before_comes_first() {
    let actions = turn(TurnKind::Reply, false, |action| match action {
        TurnAction::OpenSession => TurnEvent::Opened {
            reason: Some(SessionResetReason::Idle),
            has_previous: true,
        },
        other => usual(other),
    });
    assert_eq!(
        actions[3..6],
        [
            TurnAction::CareForPrevious(PreviousSessionStep::FlushStale),
            TurnAction::SweepDaily,
            TurnAction::BuildMemory
        ]
    );
}

#[test]
fn scheduled_turns_are_not_recorded() {
    let actions = turn(TurnKind::Reply, true, usual);
    assert!(!actions.contains(&TurnAction::RecordTurn));
    assert!(actions.contains(&TurnAction::Publish));
}

#[test]
fn an_unwritten_session_is_not_marked() {
    let actions = turn(TurnKind::Reply, false, |action| match action {
        TurnAction::WriteRequest | TurnAction::WriteReply => TurnEvent::Failed,
        other => usual(other),
    });
    assert!(!actions.contains(&TurnAction::MarkDirty));
    assert!(actions.contains(&TurnAction::Publish));
}

#[test]
fn streams_go_out_in_pieces_unless_they_are_stopped() {
    let streamed = turn(TurnKind::Stream, false, usual);
    assert!(!streamed.contains(&TurnAction::Route));
    assert!(!streamed.contains(&TurnAction::WriteReply));
    assert_eq!(
        streamed[streamed.len() - 3..],
        [
            TurnAction::PersistSession,
            TurnAction::StreamReply,
            TurnAction::Done
        ]
    );
    let stopped = turn(TurnKind::Stream, false, |action| match action {
        TurnAction::RunRounds => TurnEvent::RoundsEnded { cancelled: true },
        other => usual(other),
    });
    assert_eq!(
        stopped[stopped.len() - 7..],
        [
            TurnAction::Polish,
            TurnAction::WriteRequest,
            TurnAction::WriteReply,
            TurnAction::MarkDirty,
            TurnAction::PersistSession,
            TurnAction::SendStopped,
            TurnAction::Done
        ]
    );
}

#[test]
fn stopped_replies_are_written_and_sent() {
    let stopped = turn(TurnKind::Reply, false, |action| match action {
        TurnAction::RunRounds => TurnEvent::RoundsEnded { cancelled: true },
        other => usual(other),
    });
    assert_eq!(
        stopped[stopped.len() - 8..],
        [
            TurnAction::Polish,
            TurnAction::WriteRequest,
            TurnAction::WriteReply,
            TurnAction::MarkDirty,
            TurnAction::RecordTurn,
            TurnAction::PersistSession,
            TurnAction::Publish,
            TurnAction::Done
        ]
    );
}

#[test]
fn after_a_reset_the_agent_speaks_first() {
    assert_eq!(
        turn(TurnKind::AfterReset, false, usual),
        vec![
            TurnAction::OpenSession,
            TurnAction::RunRounds,
            TurnAction::Polish,
            TurnAction::WriteRequest,
            TurnAction::WriteReply,
            TurnAction::MarkDirty,
            TurnAction::Publish,
            TurnAction::Done,
        ]
    );
}

#[test]
fn steps_that_are_needed_end_a_turn_when_they_fail() {
    for needed in [
        TurnAction::OpenSession,
        TurnAction::BuildMemory,
        TurnAction::Prepare,
        TurnAction::RunRounds,
        TurnAction::Polish,
    ] {
        let actions = turn(TurnKind::Reply, false, |action| {
            if action == needed {
                TurnEvent::Failed
            } else {
                usual(action)
            }
        });
        assert_eq!(actions.last(), Some(&TurnAction::Fail));
        assert!(!actions.contains(&TurnAction::Publish));
    }
    for spare in [
        TurnAction::Recover,
        TurnAction::LoadHistory,
        TurnAction::MarkDirty,
        TurnAction::RecordTurn,
        TurnAction::PersistSession,
        TurnAction::Publish,
    ] {
        let actions = turn(TurnKind::Reply, false, |action| {
            if action == spare {
                TurnEvent::Failed
            } else {
                usual(action)
            }
        });
        assert_eq!(actions.last(), Some(&TurnAction::Done));
    }
}

/// The actions of a closing whose steps end as `event` says.
fn closing(
    kind: ClosingKind,
    event: impl Fn(ClosingAction) -> ClosingEvent,
) -> Vec<ClosingAction> {
    let mut state = ClosingState::new(kind);
    let mut actions = vec![state.doing];
    for _ in 0..14 {
        if matches!(state.doing, ClosingAction::Done | ClosingAction::Fail) {
            break;
        }
        state = state.next(event(state.doing));
        actions.push(state.doing);
    }
    assert!(matches!(state.doing, ClosingAction::Done | ClosingAction::Fail));
    actions
}

fn all_there(action: ClosingAction) -> ClosingEvent {
    match action {
        ClosingAction::FindSession | ClosingAction::Capture => {
            ClosingEvent::Found { there: true }
        }
        _ => ClosingEvent::Succeeded,
    }
}

#[test]
fn a_stale_session_is_archived_once_it_is_flushed() {
    assert_eq!(
        closing(ClosingKind::Stale { recovering: true }, all_there),
        vec![
            ClosingAction::EndEpisodes,
            ClosingAction::Capture,
            ClosingAction::MarkBegun,
            ClosingAction::Flush,
            ClosingAction::Settle,
            ClosingAction::Archive,
            ClosingAction::ForgetState,
            ClosingAction::MarkDirty,
            ClosingAction::Reindex,
            ClosingAction::Release,
            ClosingAction::Done,
        ]
    );
}

#[test]
fn a_stale_session_stays_where_its_flush_fails() {
    let actions = closing(ClosingKind::Stale { recovering: true }, |action| {
        match action {
            ClosingAction::Flush => ClosingEvent::Failed,
            other => all_there(other),
        }
    });
    assert!(actions.contains(&ClosingAction::Settle));
    assert!(!actions.contains(&ClosingAction::Archive));
    assert!(!actions.contains(&ClosingAction::ForgetState));
    assert!(actions.contains(&ClosingAction::Release));
}

#[test]
fn nothing_to_flush_is_recorded() {
    let nothing = |action: ClosingAction| match action {
        ClosingAction::Capture => ClosingEvent::Found { there: false },
        other => all_there(other),
    };
    assert_eq!(
        closing(ClosingKind::Stale { recovering: false }, nothing),
        vec![
            ClosingAction::EndEpisodes,
            ClosingAction::Capture,
            ClosingAction::SettleClean,
            ClosingAction::Done
        ]
    );
}

#[test]
fn a_reset_goes_through_whatever_comes_of_the_flush() {
    for flushed in [ClosingEvent::Succeeded, ClosingEvent::Failed] {
        let actions = closing(ClosingKind::Reset, |action| match action {
            ClosingAction::Flush => flushed,
            other => all_there(other),
        });
        assert_eq!(
            actions,
            vec![
                ClosingAction::FindSession,
                ClosingAction::EndEpisodes,
                ClosingAction::Capture,
                ClosingAction::Flush,
                ClosingAction::Settle,
                ClosingAction::ResetSession,
                ClosingAction::ClearTranscript,
                ClosingAction::ForgetState,
                ClosingAction::Greet,
                ClosingAction::Done,
            ]
        );
    }
    let none = closing(ClosingKind::Reset, |action| match action {
        ClosingAction::FindSession => ClosingEvent::Found { there: false },
        other => all_there(other),
    });
    assert_eq!(
        none,
        vec![
            ClosingAction::FindSession,
            ClosingAction::ResetSession,
            ClosingAction::Greet,
            ClosingAction::Done
        ]
    );
}

#[test]
fn a_summary_before_a_new_session_archives_what_ran_out() {
    let idle = closing(
        ClosingKind::Fallback {
            reason: SessionResetReason::Idle,
        },
        all_there,
    );
    assert!(idle.contains(&ClosingAction::Archive));
    let explicit = closing(
        ClosingKind::Fallback {
            reason: SessionResetReason::Explicit,
        },
        all_there,
    );
    assert_eq!(
        explicit,
        vec![
            ClosingAction::Capture,
            ClosingAction::Flush,
            ClosingAction::Settle,
            ClosingAction::Done
        ]
    );
}

#[test]
fn notes_are_linked_to_their_places() {
    let links = lineage_links("memory/2026-03-09.md", "s1", "c1", true);
    assert_eq!(links.len(), 3);
    assert!(matches!(&links[0], LineageLink::Section { reference }
        if reference == "memory/2026-03-09.md#c1"));
    assert!(matches!(&links[1], LineageLink::SessionChunks { prefix } if prefix == "sessions/s1#"));
    assert!(matches!(&links[2], LineageLink::DailyChunks { path }
        if path == "memory/2026-03-09.md"));
    assert_eq!(links[0].relation(), "summary");
    assert_eq!(links[1].relation(), "raw");
    assert_eq!(links[2].relation(), "summary");
    assert_eq!(lineage_links("p", "s", "c", false).len(), 2);
}
