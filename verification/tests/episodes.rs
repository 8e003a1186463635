use clawhive_core::orchestrator::episode::boundary::{
    boundary_flush_topic_tokens, boundary_flush_topic_tokens_from_text,
    boundary_flush_topics_are_related, build_boundary_episodes_from_state,
    build_episode_topic_sketch, collect_boundary_episode_for_range,
    collect_unflushed_boundary_episodes, collect_unflushed_boundary_turns, decide_episode_turn,
    episode_status_ready_for_boundary_flush, infer_episode_task_state, sort_by_range,
    split_boundary_flush_episode_batches, MAX_OPEN_EPISODE_TURNS,
};
use clawhive_core::orchestrator::episode::flush::{
    all_jobs_succeeded, begin_stale_flush, capture_boundary_flush_snapshot,
    capture_closed_episode_snapshot, claim_recovery, closure_source, plan_flush, release_recovery,
    RecoveryAction, RESET_FLUSH_SOURCE,
};
use clawhive_core::orchestrator::episode::tracking::{
    close_open_episodes_for_session_end, delivered_episodes, mark_flush_pending,
    persist_boundary_flush_state, record_session_turn_episode, session_end_episodes,
    update_closed_episode_flush_state,
};
use clawhive_core::orchestrator::episode::types::{
    BoundaryFlushEpisode, EpisodeBoundaryDecision, EpisodeStateRecord, EpisodeStatusRecord,
    EpisodeTaskStateRecord, EpisodeTurnInput, RecentExplicitMemoryWrite, SessionMemoryStateRecord,
};
use clawhive_core::orchestrator::messages::{SessionEntry, SessionMessage, Timestamp};
use clawhive_core::token_set::TokenSet;

const NOW: i64 = 1_774_864_800;

fn at(secs: i64) -> Timestamp {
    Timestamp { secs, nanos: 0 }
}

fn message(role: &str, content: &str) -> SessionMessage {
    SessionMessage {
        role: role.to_string(),
        content: content.to_string(),
        timestamp: None,
    }
}

fn entry(id: &str, secs: i64, role: &str, content: &str) -> SessionEntry {
    SessionEntry::Message {
        id: id.to_string(),
        timestamp: at(secs),
        message: message(role, content),
    }
}

/// Messages of a user and the assistant in turn.
fn entries(contents: &[&str]) -> Vec<SessionEntry> {
    contents
        .iter()
        .enumerate()
        .map(|(i, content)| {
            let role = if i % 2 == 0 { "user" } else { "assistant" };
            entry(&format!("m{}", i + 1), NOW + i as i64, role, content)
        })
        .collect()
}

fn episode(
    session_id: &str,
    start: u64,
    end: u64,
    status: EpisodeStatusRecord,
    task_state: EpisodeTaskStateRecord,
    sketch: &str,
) -> EpisodeStateRecord {
    EpisodeStateRecord {
        episode_id: format!("{session_id}:{start}"),
        start_turn: start,
        end_turn: end,
        status,
        task_state,
        topic_sketch: sketch.to_string(),
        last_activity_at: at(NOW),
    }
}

fn state(session_id: &str, episodes: Vec<EpisodeStateRecord>) -> SessionMemoryStateRecord {
    let mut state = SessionMemoryStateRecord::fresh("agent-a", session_id, "telegram:tg:chat:1");
    state.open_episodes = episodes;
    state
}

fn turn<'a>(index: u64, user: &'a str, assistant: &'a str, tools: usize) -> EpisodeTurnInput<'a> {
    EpisodeTurnInput {
        turn_index: index,
        user_text: user,
        assistant_text: assistant,
        successful_tool_calls: tools,
        final_stop_reason: Some("end_turn"),
    }
}

const VEC_PUSH: &str = "How do I use Rust Vec push?";
const VEC_PUSH_REPLY: &str = "Use Vec::push to append items.";
const GPU: &str = "How do I inspect RunPod GPU usage?";
const GPU_REPLY: &str = "Use nvidia-smi on the pod.";

fn only_turns_after_the_checkpoint() {
    let all = entries(&["first user", "first reply", "second user", "second reply"]);
    let (episodes, turn_count) = collect_unflushed_boundary_episodes(&all, 1).expect("snapshot");
    assert_eq!(turn_count, 2);
    assert_eq!(episodes.len(), 1);
    assert_eq!(episodes[0].start_turn, 2);
    assert_eq!(episodes[0].end_turn, 2);
    assert_eq!(episodes[0].messages.len(), 2);
    assert_eq!(episodes[0].messages[0].content, "second user");
    assert_eq!(episodes[0].messages[1].content, "second reply");
}

#[test]
fn orchestrator_collect_unflushed_boundary_episodes_only_returns_turns_after_checkpoint() {
    only_turns_after_the_checkpoint();
}

#[test]
fn mod_collect_unflushed_boundary_episodes_only_returns_turns_after_checkpoint() {
    only_turns_after_the_checkpoint();
}

fn related_turns_are_grouped() {
    let all = entries(&[
        VEC_PUSH,
        VEC_PUSH_REPLY,
        "What about Rust Vec insert?",
        "Use Vec::insert for indexed insertion.",
    ]);
    let (episodes, turn_count) = collect_unflushed_boundary_episodes(&all, 0).expect("snapshot");
    assert_eq!(turn_count, 2);
    assert_eq!(episodes.len(), 1);
    assert_eq!(episodes[0].start_turn, 1);
    assert_eq!(episodes[0].end_turn, 2);
    assert_eq!(episodes[0].messages.len(), 4);
}

#[test]
fn orchestrator_collect_unflushed_boundary_episodes_groups_related_turns() {
    related_turns_are_grouped();
}

#[test]
fn mod_collect_unflushed_boundary_episodes_groups_related_turns() {
    related_turns_are_grouped();
}

#[test]
fn collect_unflushed_boundary_turns_does_not_truncate_long_unflushed_history() {
    let mut all = Vec::new();
    for turn in 1..=60 {
        all.push(entry(
            &format!("u-{turn}"),
            NOW,
            "user",
            &format!("user turn {turn}"),
        ));
        all.push(entry(
            &format!("a-{turn}"),
            NOW,
            "assistant",
            &format!("assistant turn {turn}"),
        ));
    }

    let (turns, turn_count) = collect_unflushed_boundary_turns(&all, 0).expect("snapshot");
    assert_eq!(turn_count, 60);
    assert_eq!(turns.len(), 60);
    assert_eq!(turns.first().map(|turn| turn.start_turn), Some(1));
    assert_eq!(turns.last().map(|turn| turn.end_turn), Some(60));
}

fn related_turns_stay_in_one_episode() {
    let mut state = state("session-episode-1", vec![]);
    record_session_turn_episode(
        &mut state,
        "session-episode-1",
        &turn(1, VEC_PUSH, VEC_PUSH_REPLY, 0),
        at(NOW),
    );
    record_session_turn_episode(
        &mut state,
        "session-episode-1",
        &turn(
            2,
            "What about Rust Vec insert?",
            "Use Vec::insert for indexed insertion.",
            0,
        ),
        at(NOW),
    );
    assert_eq!(state.open_episodes.len(), 1);
    let episode = &state.open_episodes[0];
    assert_eq!(episode.start_turn, 1);
    assert_eq!(episode.end_turn, 2);
    assert_eq!(episode.status, EpisodeStatusRecord::Open);
    assert_eq!(episode.task_state, EpisodeTaskStateRecord::Delivered);
}

#[test]
fn orchestrator_record_session_turn_episode_merges_related_turns_into_same_open_episode() {
    related_turns_stay_in_one_episode();
}

#[test]
fn mod_record_session_turn_episode_merges_related_turns_into_same_open_episode() {
    related_turns_stay_in_one_episode();
}

fn a_new_topic_closes_the_episode() {
    let mut state = state("session-episode-closure", vec![]);
    record_session_turn_episode(
        &mut state,
        "session-episode-closure",
        &turn(1, VEC_PUSH, VEC_PUSH_REPLY, 0),
        at(NOW),
    );
    let closed = record_session_turn_episode(
        &mut state,
        "session-episode-closure",
        &turn(2, GPU, GPU_REPLY, 0),
        at(NOW),
    )
    .expect("closed episode");

    assert_eq!(closed.start_turn, 1);
    assert_eq!(closed.end_turn, 1);
    assert_eq!(closed.status, EpisodeStatusRecord::Closed);
    assert_eq!(state.open_episodes.len(), 2);
    assert_eq!(state.open_episodes[0].status, EpisodeStatusRecord::Closed);
    assert_eq!(state.open_episodes[1].status, EpisodeStatusRecord::Open);
    assert_eq!(state.open_episodes[1].start_turn, 2);
}

#[test]
fn orchestrator_record_session_turn_episode_closes_previous_episode_on_topic_switch() {
    a_new_topic_closes_the_episode();
}

#[test]
fn mod_record_session_turn_episode_closes_previous_episode_on_topic_switch() {
    a_new_topic_closes_the_episode();
}

fn task_states_follow_the_reply() {
    assert_eq!(
        infer_episode_task_state("好，让我把所有内容整合起来：", 0, Some("end_turn")),
        EpisodeTaskStateRecord::Executing
    );
    assert_eq!(
        infer_episode_task_state("我现在就整理给你", 0, Some("end_turn")),
        EpisodeTaskStateRecord::Exploring
    );
    assert_eq!(
        infer_episode_task_state("整理好了，答案如下。", 0, Some("end_turn")),
        EpisodeTaskStateRecord::Delivered
    );
    assert_eq!(
        infer_episode_task_state("我现在就整理给你", 1, Some("end_turn")),
        EpisodeTaskStateRecord::Delivered
    );
    assert_eq!(
        infer_episode_task_state("整理到一半", 0, Some("length")),
        EpisodeTaskStateRecord::Executing
    );
}

#[test]
fn orchestrator_infer_episode_task_state_distinguishes_structural_delivery_states() {
    task_states_follow_the_reply();
}

#[test]
fn mod_infer_episode_task_state_distinguishes_structural_delivery_states() {
    task_states_follow_the_reply();
}

fn related_topics_continue() {
    let current = boundary_flush_topic_tokens_from_text("rust vec push");
    let next = boundary_flush_topic_tokens_from_text("rust vec capacity");
    let decision = decide_episode_turn(
        &current,
        &next,
        "整理好了，答案如下。",
        0,
        Some("end_turn"),
        EpisodeTaskStateRecord::Delivered,
        1,
    );
    assert_eq!(decision.boundary, EpisodeBoundaryDecision::ContinueCurrent);
    assert_eq!(decision.task_state, EpisodeTaskStateRecord::Delivered);
}

#[test]
fn orchestrator_decide_episode_turn_keeps_related_topics_in_same_episode() {
    related_topics_continue();
}

#[test]
fn mod_decide_episode_turn_keeps_related_topics_in_same_episode() {
    related_topics_continue();
}

fn unrelated_topics_split() {
    let current = boundary_flush_topic_tokens_from_text("rust vec push");
    let next = boundary_flush_topic_tokens_from_text("runpod gpu inspect");
    let decision = decide_episode_turn(
        &current,
        &next,
        "我现在就整理给你",
        1,
        Some("end_turn"),
        EpisodeTaskStateRecord::Delivered,
        1,
    );
    assert_eq!(
        decision.boundary,
        EpisodeBoundaryDecision::CloseCurrentAndOpenNext
    );
    assert_eq!(decision.task_state, EpisodeTaskStateRecord::Delivered);
}

#[test]
fn orchestrator_decide_episode_turn_splits_unrelated_topics_and_tracks_runtime_state() {
    unrelated_topics_split();
}

#[test]
fn mod_decide_episode_turn_splits_unrelated_topics_and_tracks_runtime_state() {
    unrelated_topics_split();
}

fn a_full_episode_splits() {
    let current = boundary_flush_topic_tokens_from_text("rust vec push");
    let next = boundary_flush_topic_tokens_from_text("rust vec capacity");
    let decision = decide_episode_turn(
        &current,
        &next,
        "继续补充说明。",
        0,
        Some("end_turn"),
        EpisodeTaskStateRecord::Delivered,
        MAX_OPEN_EPISODE_TURNS,
    );
    assert_eq!(
        decision.boundary,
        EpisodeBoundaryDecision::CloseCurrentAndOpenNext
    );
}

#[test]
fn orchestrator_decide_episode_turn_splits_when_current_episode_reaches_turn_cap() {
    a_full_episode_splits();
}

#[test]
fn mod_decide_episode_turn_splits_when_current_episode_reaches_turn_cap() {
    a_full_episode_splits();
}

fn a_promise_leaves_the_episode_executing() {
    let mut state = state("session-episode-task-state", vec![]);
    record_session_turn_episode(
        &mut state,
        "session-episode-task-state",
        &turn(1, "请整理 memory 重构方案", "好，让我把所有内容整合起来：", 0),
        at(NOW),
    );
    assert_eq!(state.open_episodes.len(), 1);
    assert_eq!(
        state.open_episodes[0].task_state,
        EpisodeTaskStateRecord::Executing
    );
}

#[test]
fn orchestrator_record_session_turn_episode_marks_open_episode_executing_for_structural_promise() {
    a_promise_leaves_the_episode_executing();
}

#[test]
fn mod_record_session_turn_episode_marks_open_episode_executing_for_structural_promise() {
    a_promise_leaves_the_episode_executing();
}

fn tools_make_an_open_reply_a_delivery() {
    let mut state = state("session-episode-task-state-tools", vec![]);
    record_session_turn_episode(
        &mut state,
        "session-episode-task-state-tools",
        &turn(1, "请帮我检查 GPU 状态", "我现在就整理给你", 1),
        at(NOW),
    );
    assert_eq!(state.open_episodes.len(), 1);
    assert_eq!(
        state.open_episodes[0].task_state,
        EpisodeTaskStateRecord::Delivered
    );
}

#[test]
fn orchestrator_record_session_turn_episode_marks_inconclusive_reply_delivered_after_tool_execution()
{
    tools_make_an_open_reply_a_delivery();
}

#[test]
fn mod_record_session_turn_episode_marks_inconclusive_reply_delivered_after_tool_execution() {
    tools_make_an_open_reply_a_delivery();
}

fn recorded_ranges_come_first() {
    let state = state(
        "session-episode-2",
        vec![episode(
            "session-episode-2",
            1,
            2,
            EpisodeStatusRecord::Open,
            EpisodeTaskStateRecord::Delivered,
            "rust vec",
        )],
    );
    let all = entries(&[
        VEC_PUSH,
        VEC_PUSH_REPLY,
        "Completely different new task",
        "Handled the unrelated task.",
    ]);
    let snapshot =
        capture_boundary_flush_snapshot(false, Some(&state), &all, at(NOW)).expect("snapshot");
    assert_eq!(snapshot.episodes.len(), 1);
    assert_eq!(snapshot.episodes[0].start_turn, 1);
    assert_eq!(snapshot.episodes[0].end_turn, 2);
    assert_eq!(snapshot.episodes[0].messages.len(), 4);
}

#[test]
fn orchestrator_boundary_flush_snapshot_prefers_persisted_open_episode_ranges() {
    recorded_ranges_come_first();
}

#[test]
fn mod_boundary_flush_snapshot_prefers_persisted_open_episode_ranges() {
    recorded_ranges_come_first();
}

fn flushed_ranges_are_left_out() {
    let id = "session-episode-3";
    let mut state = state(
        id,
        vec![
            episode(
                id,
                1,
                1,
                EpisodeStatusRecord::Flushed,
                EpisodeTaskStateRecord::Delivered,
                "rust vec",
            ),
            episode(
                id,
                2,
                2,
                EpisodeStatusRecord::Open,
                EpisodeTaskStateRecord::Delivered,
                "runpod gpu",
            ),
        ],
    );
    state.last_flushed_turn = 1;
    state.last_boundary_flush_at = Some(at(NOW));
    let all = entries(&[VEC_PUSH, VEC_PUSH_REPLY, GPU, GPU_REPLY]);
    let snapshot =
        capture_boundary_flush_snapshot(false, Some(&state), &all, at(NOW)).expect("snapshot");
    assert_eq!(snapshot.episodes.len(), 1);
    assert_eq!(snapshot.episodes[0].start_turn, 2);
    assert_eq!(snapshot.episodes[0].end_turn, 2);
    assert_eq!(snapshot.turn_count, 2);
}

#[test]
fn orchestrator_boundary_flush_snapshot_ignores_already_flushed_episode_ranges() {
    flushed_ranges_are_left_out();
}

#[test]
fn mod_boundary_flush_snapshot_ignores_already_flushed_episode_ranges() {
    flushed_ranges_are_left_out();
}

fn pending_ranges_are_left_out_for_a_while() {
    let id = "session-episode-pending";
    let state = state(
        id,
        vec![
            episode(
                id,
                1,
                1,
                EpisodeStatusRecord::FlushPending,
                EpisodeTaskStateRecord::Delivered,
                "rust vec",
            ),
            episode(
                id,
                2,
                2,
                EpisodeStatusRecord::Closed,
                EpisodeTaskStateRecord::Delivered,
                "runpod gpu",
            ),
        ],
    );
    let all = entries(&[VEC_PUSH, VEC_PUSH_REPLY, GPU, GPU_REPLY]);
    let snapshot =
        capture_boundary_flush_snapshot(false, Some(&state), &all, at(NOW)).expect("snapshot");
    assert_eq!(snapshot.episodes.len(), 1);
    assert_eq!(snapshot.episodes[0].start_turn, 2);
    assert_eq!(snapshot.episodes[0].end_turn, 2);
    assert_eq!(snapshot.turn_count, 2);
}

#[test]
fn orchestrator_boundary_flush_snapshot_skips_recent_flush_pending_episode_ranges() {
    pending_ranges_are_left_out_for_a_while();
}

#[test]
fn mod_boundary_flush_snapshot_skips_recent_flush_pending_episode_ranges() {
    pending_ranges_are_left_out_for_a_while();
}

#[test]
fn session_end_schedules_delivered_closed_episodes_before_fallback_snapshot() {
    let id = "session-episode-session-end";
    let mut state = state(
        id,
        vec![
            episode(
                id,
                1,
                1,
                EpisodeStatusRecord::Closed,
                EpisodeTaskStateRecord::Delivered,
                "rust vec",
            ),
            episode(
                id,
                2,
                2,
                EpisodeStatusRecord::Closed,
                EpisodeTaskStateRecord::Exploring,
                "runpod gpu",
            ),
        ],
    );
    let all = entries(&[
        VEC_PUSH,
        VEC_PUSH_REPLY,
        GPU,
        "I need to check more details.",
    ]);
    for delivered in delivered_episodes(&state) {
        mark_flush_pending(&mut state, &delivered.episode_id, at(NOW));
    }

    let snapshot =
        capture_boundary_flush_snapshot(false, Some(&state), &all, at(NOW)).expect("snapshot");
    assert_eq!(snapshot.episodes.len(), 1);
    assert_eq!(snapshot.episodes[0].start_turn, 2);
    assert_eq!(snapshot.episodes[0].end_turn, 2);
    assert_eq!(state.open_episodes.len(), 2);
    assert_ne!(state.open_episodes[0].status, EpisodeStatusRecord::Open);
    assert_eq!(state.open_episodes[1].status, EpisodeStatusRecord::Closed);
}

#[test]
fn session_end_schedule_closes_open_episodes_before_flush() {
    let id = "session-episode-session-end";
    let mut state = state(
        id,
        vec![
            episode(
                id,
                1,
                1,
                EpisodeStatusRecord::Closed,
                EpisodeTaskStateRecord::Delivered,
                "rust vec",
            ),
            episode(
                id,
                2,
                2,
                EpisodeStatusRecord::Open,
                EpisodeTaskStateRecord::Exploring,
                "runpod gpu",
            ),
        ],
    );
    assert!(close_open_episodes_for_session_end(&mut state, at(NOW)));
    for due in session_end_episodes(&state) {
        mark_flush_pending(&mut state, &due.episode_id, at(NOW));
    }
    assert_eq!(state.open_episodes.len(), 2);
    assert!(
        state
            .open_episodes
            .iter()
            .all(|episode| episode.status != EpisodeStatusRecord::Open),
        "session-end scheduling should close all open episodes before flush"
    );
}

fn open_episodes_are_closed_at_the_end() {
    let id = "session-episode-4";
    let mut state = state(
        id,
        vec![
            episode(
                id,
                1,
                1,
                EpisodeStatusRecord::Open,
                EpisodeTaskStateRecord::Executing,
                "memory",
            ),
            episode(
                id,
                2,
                2,
                EpisodeStatusRecord::Closed,
                EpisodeTaskStateRecord::Delivered,
                "runpod",
            ),
            episode(
                id,
                3,
                3,
                EpisodeStatusRecord::Flushed,
                EpisodeTaskStateRecord::Delivered,
                "obsidian",
            ),
        ],
    );
    assert!(close_open_episodes_for_session_end(&mut state, at(NOW)));
    assert_eq!(state.open_episodes.len(), 3);
    assert_eq!(state.open_episodes[0].status, EpisodeStatusRecord::Closed);
    assert_eq!(state.open_episodes[1].status, EpisodeStatusRecord::Closed);
    assert_eq!(state.open_episodes[2].status, EpisodeStatusRecord::Flushed);
    assert!(!close_open_episodes_for_session_end(&mut state, at(NOW)));
}

#[test]
fn orchestrator_close_open_episodes_for_session_end_marks_remaining_open_episodes_closed() {
    open_episodes_are_closed_at_the_end();
}

#[test]
fn mod_close_open_episodes_for_session_end_marks_remaining_open_episodes_closed() {
    open_episodes_are_closed_at_the_end();
}

fn a_failed_flush_makes_the_episode_closed_again() {
    let id = "session-episode-failure";
    let mut state = state(
        id,
        vec![episode(
            id,
            1,
            1,
            EpisodeStatusRecord::FlushPending,
            EpisodeTaskStateRecord::Delivered,
            "memory",
        )],
    );
    update_closed_episode_flush_state(&mut state, &format!("{id}:1"), false, at(NOW));
    assert_eq!(state.open_episodes.len(), 1);
    assert_eq!(state.open_episodes[0].status, EpisodeStatusRecord::Closed);
}

#[test]
fn orchestrator_update_closed_episode_flush_state_reverts_pending_episode_on_failure() {
    a_failed_flush_makes_the_episode_closed_again();
}

#[test]
fn mod_update_closed_episode_flush_state_reverts_pending_episode_on_failure() {
    a_failed_flush_makes_the_episode_closed_again();
}

fn snapshots_begin_behind_the_checkpoint() {
    let mut state = state("session-1", vec![]);
    state.last_flushed_turn = 1;
    state.last_boundary_flush_at = Some(at(NOW));
    let all = entries(&["first user", "first reply", "second user", "second reply"]);
    let snapshot =
        capture_boundary_flush_snapshot(false, Some(&state), &all, at(NOW)).expect("snapshot");
    assert_eq!(snapshot.turn_count, 2);
    assert_eq!(snapshot.episodes.len(), 1);
    assert_eq!(snapshot.episodes[0].start_turn, 2);
    assert_eq!(snapshot.episodes[0].end_turn, 2);
    assert_eq!(snapshot.episodes[0].messages.len(), 2);
    assert_eq!(snapshot.episodes[0].messages[0].content, "second user");
    assert_eq!(snapshot.episodes[0].messages[1].content, "second reply");
}

#[test]
fn orchestrator_boundary_flush_snapshot_resumes_from_persisted_checkpoint_after_restart() {
    snapshots_begin_behind_the_checkpoint();
}

#[test]
fn mod_boundary_flush_snapshot_resumes_from_persisted_checkpoint_after_restart() {
    snapshots_begin_behind_the_checkpoint();
}

fn snapshots_carry_the_markers() {
    let mut state = state("session-1", vec![]);
    state.recent_explicit_writes = vec![RecentExplicitMemoryWrite {
        turn_index: 1,
        memory_ref: "fact-1".to_string(),
        canonical_id: Some("canon-1".to_string()),
        summary: "User prefers concise replies".to_string(),
        recorded_at: at(NOW),
    }];
    let all = entries(&["first user", "first reply"]);
    let snapshot =
        capture_boundary_flush_snapshot(false, Some(&state), &all, at(NOW)).expect("snapshot");
    assert_eq!(snapshot.recent_explicit_writes.len(), 1);
    let marker = &snapshot.recent_explicit_writes[0];
    assert_eq!(marker.memory_ref, "fact-1");
    assert_eq!(marker.canonical_id.as_deref(), Some("canon-1"));
    assert_eq!(marker.summary, "User prefers concise replies");
    assert_eq!(marker.recorded_at, at(NOW));
}

#[test]
fn orchestrator_explicit_memory_marker_survives_restart() {
    snapshots_carry_the_markers();
}

#[test]
fn mod_explicit_memory_marker_survives_restart() {
    snapshots_carry_the_markers();
}

#[test]
fn scheduled_sessions_and_flushed_ones_have_no_snapshot() {
    let all = entries(&["first user", "first reply"]);
    assert!(capture_boundary_flush_snapshot(true, None, &all, at(NOW)).is_none());
    assert!(capture_boundary_flush_snapshot(false, None, &all, at(NOW)).is_some());
    let mut state = state("s", vec![]);
    state.last_flushed_turn = 1;
    assert!(capture_boundary_flush_snapshot(false, Some(&state), &all, at(NOW)).is_none());
    assert!(capture_boundary_flush_snapshot(false, None, &[], at(NOW)).is_none());
}

#[test]
fn a_pending_episode_is_ready_after_its_grace() {
    let mut pending = episode(
        "s",
        1,
        1,
        EpisodeStatusRecord::FlushPending,
        EpisodeTaskStateRecord::Delivered,
        "",
    );
    assert!(!episode_status_ready_for_boundary_flush(&pending, at(NOW + 29)));
    assert!(episode_status_ready_for_boundary_flush(&pending, at(NOW + 30)));
    pending.status = EpisodeStatusRecord::Flushed;
    assert!(!episode_status_ready_for_boundary_flush(&pending, at(NOW + 99)));
    pending.status = EpisodeStatusRecord::Open;
    assert!(episode_status_ready_for_boundary_flush(&pending, at(NOW)));
}

#[test]
fn topics_are_told_by_words_of_three_bytes() {
    let tokens = boundary_flush_topic_tokens_from_text("How do I use Rust-Vec 好吗?");
    assert_eq!(tokens.sorted(), vec!["how", "rust", "use", "vec", "好吗"]);
    let of_messages = boundary_flush_topic_tokens(&[
        message("user", "Rust vec"),
        message("assistant", "unrelated words"),
    ]);
    assert_eq!(of_messages.sorted(), vec!["rust", "vec"]);
    let empty = TokenSet::new();
    assert_eq!(
        boundary_flush_topics_are_related(&tokens, &of_messages),
        boundary_flush_topics_are_related(&of_messages, &tokens)
    );
    assert_eq!(
        boundary_flush_topics_are_related(&empty, &tokens),
        boundary_flush_topics_are_related(&tokens, &empty)
    );
}

#[test]
fn sketches_are_short() {
    assert_eq!(build_episode_topic_sketch("rust vec push"), "push rust vec");
    assert_eq!(
        build_episode_topic_sketch("alpha beta gamma delta epsilon zeta eta theta iota kappa"),
        "alpha beta delta epsilon eta gamma iota kappa"
    );
    assert_eq!(build_episode_topic_sketch(&"!".repeat(300)), "!".repeat(96));
}

#[test]
fn ranges_are_sorted_and_stay_stable() {
    let e = |start: u64, end: u64, sketch: &str| {
        episode(
            "s",
            start,
            end,
            EpisodeStatusRecord::Open,
            EpisodeTaskStateRecord::Delivered,
            sketch,
        )
    };
    let sorted = sort_by_range(&vec![e(3, 3, "a"), e(1, 2, "b"), e(1, 1, "c"), e(1, 2, "d")]);
    let order: Vec<&str> = sorted.iter().map(|e| e.topic_sketch.as_str()).collect();
    assert_eq!(order, vec!["c", "b", "d", "a"]);
}

#[test]
fn a_range_of_turns_is_cut_out() {
    let all = entries(&["u1", "a1", "u2", "a2", "u3", "a3"]);
    let cut = collect_boundary_episode_for_range(&all, 2, 3).expect("range");
    assert_eq!((cut.start_turn, cut.end_turn), (2, 3));
    let contents: Vec<&str> = cut.messages.iter().map(|m| m.content.as_str()).collect();
    assert_eq!(contents, vec!["u2", "a2", "u3", "a3"]);
    assert!(collect_boundary_episode_for_range(&all, 4, 5).is_none());
}

#[test]
fn runs_follow_the_recorded_episodes() {
    let (turns, _) =
        collect_unflushed_boundary_turns(&entries(&["u1", "a1", "u2", "a2"]), 0).unwrap();
    let records = [episode(
        "s",
        1,
        1,
        EpisodeStatusRecord::Closed,
        EpisodeTaskStateRecord::Delivered,
        "",
    )];
    let runs = build_boundary_episodes_from_state(&turns, &records, at(NOW));
    assert_eq!((runs[0].start_turn, runs[0].end_turn), (1, 1));
    assert_eq!(runs[0].messages.len(), 2);
}

fn run(start: u64, end: u64) -> BoundaryFlushEpisode {
    BoundaryFlushEpisode {
        start_turn: start,
        end_turn: end,
        messages: vec![],
    }
}

#[test]
fn batches_keep_their_turns() {
    let runs = [run(1, 30), run(31, 50), run(51, 51), run(52, 200)];
    let batches = split_boundary_flush_episode_batches(&runs, 50);
    let sizes: Vec<usize> = batches.iter().map(|b| b.len()).collect();
    assert_eq!(sizes, vec![2, 1, 1]);
    assert_eq!(batches[2][0].end_turn, 200);
    assert!(split_boundary_flush_episode_batches(&[], 50).is_empty());
}

#[test]
fn every_run_gets_a_named_job() {
    let plan = plan_flush(&[run(1, 2), run(3, 60)], RESET_FLUSH_SOURCE, 50);
    let jobs: Vec<(String, u64)> = plan
        .iter()
        .flatten()
        .map(|job| (job.source.clone(), job.episode.start_turn))
        .collect();
    assert_eq!(jobs.len(), 2);
    assert!(jobs.iter().all(|(source, _)| source.contains("explicit_reset")));
    assert_ne!(jobs[0].0, jobs[1].0);
    assert!(closure_source("s:1").contains("s:1"));
    assert!(all_jobs_succeeded(&[Some(true), Some(true)]));
    assert!(!all_jobs_succeeded(&[Some(true), None]));
    assert!(!all_jobs_succeeded(&[Some(false)]));
    assert!(all_jobs_succeeded(&[]));
}

#[test]
fn a_closed_episode_is_captured_with_its_messages() {
    let all = entries(&["u1", "a1", "u2", "a2"]);
    let closed = episode(
        "s",
        2,
        2,
        EpisodeStatusRecord::Closed,
        EpisodeTaskStateRecord::Delivered,
        "",
    );
    let (cut, writes) = capture_closed_episode_snapshot(None, &all, &closed).expect("snapshot");
    assert_eq!(cut.messages.len(), 2);
    assert!(writes.is_empty());
}

#[test]
fn a_flush_moves_the_checkpoint_or_can_be_retried() {
    let mut state = state("s", vec![]);
    let all = entries(&["u1", "a1"]);
    let snapshot = capture_boundary_flush_snapshot(false, Some(&state), &all, at(NOW));
    begin_stale_flush(&mut state, &snapshot, at(NOW));
    assert!(state.pending_flush);
    let before = state.last_flushed_turn;
    persist_boundary_flush_state(&mut state, Some(1), false, at(NOW + 1));
    assert_eq!(state.last_flushed_turn, before);
    persist_boundary_flush_state(&mut state, Some(1), true, at(NOW + 2));
    assert_eq!(state.last_flushed_turn, 1);
    assert!(!state.pending_flush);
    assert_eq!(state.last_boundary_flush_at, Some(at(NOW + 2)));
}

#[test]
fn a_successful_flush_of_an_episode_moves_the_checkpoint() {
    let mut state = state(
        "s",
        vec![
            episode(
                "s",
                1,
                2,
                EpisodeStatusRecord::FlushPending,
                EpisodeTaskStateRecord::Delivered,
                "",
            ),
            episode(
                "s",
                3,
                3,
                EpisodeStatusRecord::Open,
                EpisodeTaskStateRecord::Delivered,
                "",
            ),
        ],
    );
    update_closed_episode_flush_state(&mut state, "s:1", true, at(NOW));
    assert_eq!(state.last_flushed_turn, 2);
    assert_eq!(state.open_episodes.last().map(|e| e.start_turn), Some(3));
}

#[test]
fn a_recovery_runs_once_at_a_time() {
    let (claimed, action) = claim_recovery(TokenSet::new(), "s", true);
    assert!(matches!(action, RecoveryAction::Recover));
    let (claimed, action) = claim_recovery(claimed, "s", true);
    assert!(matches!(action, RecoveryAction::AlreadyInFlight));
    let (claimed, action) = claim_recovery(claimed, "t", false);
    assert!(matches!(action, RecoveryAction::TranscriptMissing));
    let released = release_recovery(claimed, "s");
    assert!(released.is_empty());
}

#[test]
fn a_sketch_is_its_own_sketch() {
    for text in [
        "",
        "a b c",
        "Rust VEC push, rust!",
        "alpha beta gamma delta epsilon zeta eta theta iota kappa",
        "  —— 好 —— ",
        "数据库迁移 计划：明天",
    ] {
        let sketch = build_episode_topic_sketch(text);
        assert_eq!(build_episode_topic_sketch(&sketch), sketch);
    }
    let blank = format!("  {}   a b", "?! ".repeat(40));
    let sketch = build_episode_topic_sketch(&blank);
    assert_eq!(build_episode_topic_sketch(&sketch), sketch);
}
