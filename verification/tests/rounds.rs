use clawhive_core::orchestrator::messages::{ContentBlock, LlmMessage};
use clawhive_core::orchestrator::tool_loop::{
    begin_round, collect_tool_calls, copy_block, failed_tool_result, last_answer, offered_tools,
    provider_and_model, take_classification, take_lowered_response, take_response,
    take_tool_results, tool_is_offered, BeginStep, LlmResponse, LoopState, Nudge, ResponseStep,
    EXHAUSTED_NUDGE, STOPPED_TEXT,
};
use clawhive_core::orchestrator::inbound::final_reply;
use clawhive_core::orchestrator::turn::{TurnAction, TurnEvent, TurnKind, TurnState};

fn said(text: &str, stop_reason: &str) -> LlmResponse {
    LlmResponse {
        text: text.to_string(),
        content: vec![ContentBlock::Text {
            text: text.to_string(),
        }],
        stop_reason: Some(stop_reason.to_string()),
    }
}

fn calls(names: &[&str]) -> LlmResponse {
    LlmResponse {
        text: String::new(),
        content: names
            .iter()
            .map(|name| ContentBlock::ToolUse {
                id: format!("id-{name}"),
                name: name.to_string(),
                input: "{}".to_string(),
            })
            .collect(),
        stop_reason: Some("tool_use".to_string()),
    }
}

fn result(id: &str, content: &str, is_error: bool) -> ContentBlock {
    ContentBlock::ToolResult {
        tool_use_id: id.to_string(),
        content: content.to_string(),
        is_error,
    }
}

fn text_of(message: &LlmMessage) -> &str {
    match &message.content[0] {
        ContentBlock::Text { text } => text,
        other => panic!("no text: {other:?}"),
    }
}

fn question() -> Vec<LlmMessage> {
    vec![LlmMessage::user("question".to_string())]
}

#[test]
fn handle_with_view_persists_abort_message_to_session() {
    // A task that is stopped asks no model, and says that it was stopped.
    let mut conversation = question();
    let state = LoopState::new(Some(2), false, false);
    let (state, step) = begin_round(state, &mut conversation, true);
    assert_eq!(step, BeginStep::Stopped);
    assert_eq!(conversation.len(), 1);
    let meta = state.meta(None, true);
    assert!(meta.cancelled);
    assert_eq!(meta.successful_tool_calls, 0);
    assert_eq!(STOPPED_TEXT, "[Task stopped by user]");

    // The transcript gets exactly two messages: the user's and that one.
    let mut turn = TurnState::new(TurnKind::Reply, false);
    let mut transcript: Vec<(&str, String)> = Vec::new();
    while !matches!(turn.doing, TurnAction::Done | TurnAction::Fail) {
        let event = match turn.doing {
            TurnAction::Route => TurnEvent::Routed { converse: true },
            TurnAction::OpenSession => TurnEvent::Opened {
                reason: None,
                has_previous: false,
            },
            TurnAction::RunRounds => TurnEvent::RoundsEnded {
                cancelled: meta.cancelled,
            },
            TurnAction::WriteRequest => {
                transcript.push(("user", "question".to_string()));
                TurnEvent::Succeeded
            }
            TurnAction::WriteReply => {
                transcript.push(("assistant", final_reply(STOPPED_TEXT, Some("cancelled"))));
                TurnEvent::Succeeded
            }
            _ => TurnEvent::Succeeded,
        };
        turn = turn.next(event);
    }
    assert_eq!(turn.doing, TurnAction::Done);
    assert_eq!(transcript.len(), 2);
    assert_eq!(transcript[0].0, "user");
    assert_eq!(transcript[1].0, "assistant");
    assert_eq!(transcript[1].1, "[Task stopped by user]");
}

#[test]
fn a_plain_answer_ends_the_rounds() {
    let mut conversation = question();
    let state = LoopState::new(None, false, false);
    assert_eq!(state.max_iterations, 50);
    let (state, step) = begin_round(state, &mut conversation, false);
    assert_eq!(step, BeginStep::AskModel);
    let (_, step) = take_response(
        state,
        &mut conversation,
        &said("The answer is 42.", "end_turn"),
    );
    assert_eq!(step, ResponseStep::Finish);
    assert_eq!(conversation.len(), 1);
}

#[test]
fn tools_are_run_and_counted() {
    let mut conversation = question();
    let state = LoopState::new(Some(10), true, false);
    let (state, _) = begin_round(state, &mut conversation, false);
    let (state, step) = take_response(
        state,
        &mut conversation,
        &calls(&["web_search", "read_file"]),
    );
    assert_eq!(step, ResponseStep::RunTools);
    assert!(state.web_search_called);
    assert_eq!(state.total_tool_calls, 2);
    assert_eq!(conversation.len(), 2);
    let results = vec![
        result("id-web_search", "found", false),
        failed_tool_result("id-read_file", "no file"),
    ];
    let state = take_tool_results(state, &mut conversation, results);
    assert_eq!(state.successful_tool_calls, 1);
    assert_eq!(conversation.len(), 3);
    // Calls with their results stay when the next round begins.
    let (_, step) = begin_round(state, &mut conversation, false);
    assert_eq!(step, BeginStep::AskModel);
    assert_eq!(conversation.len(), 3);
}

#[test]
fn failed_tools_say_why() {
    assert_eq!(
        failed_tool_result("id", "no file"),
        result("id", "Tool execution error: no file", true)
    );
}

#[test]
fn a_web_search_is_called_for_once() {
    let mut conversation = question();
    let state = LoopState::new(None, true, false);
    let (state, step) = take_response(state, &mut conversation, &said("Done.", "end_turn"));
    assert_eq!(step, ResponseStep::Retry(Nudge::WebSearch));
    assert!(state.web_search_reminder_injected);
    assert_eq!(conversation.len(), 3);
    assert_eq!(text_of(&conversation[2]), Nudge::WebSearch.text(false));
    let (_, step) = take_response(state, &mut conversation, &said("Done.", "end_turn"));
    assert_eq!(step, ResponseStep::Finish);
}

#[test]
fn claims_without_tools_are_sent_back() {
    let mut conversation = question();
    let state = LoopState::new(None, false, true);
    let reply = said("I EXECUTED all steps.", "end_turn");
    let (state, step) = take_response(state, &mut conversation, &reply);
    assert_eq!(step, ResponseStep::Retry(Nudge::Fabricated));
    assert_eq!(state.scheduled_task_retries, 1);
    assert_eq!(text_of(&conversation[2]), Nudge::Fabricated.text(true));
    assert_ne!(Nudge::Fabricated.text(true), Nudge::Fabricated.text(false));
    let (state, step) = take_response(state, &mut conversation, &reply);
    assert_eq!(step, ResponseStep::Retry(Nudge::Fabricated));
    let (_, step) = take_response(state, &mut conversation, &reply);
    assert_eq!(step, ResponseStep::Finish);
}

#[test]
fn the_lowered_text_decides() {
    let mut conversation = question();
    let state = LoopState::new(None, false, true);
    let reply = said("Fine.", "end_turn");
    let (_, step) =
        take_lowered_response(state, &mut conversation, &reply, "i executed all steps.");
    assert_eq!(step, ResponseStep::Retry(Nudge::Fabricated));
}

#[test]
fn replies_that_were_cut_are_continued() {
    let mut conversation = question();
    let state = LoopState::new(None, false, false);
    let (state, step) = take_response(state, &mut conversation, &said("Half a", "length"));
    assert_eq!(step, ResponseStep::Retry(Nudge::Truncated));
    let (state, _) = take_response(state, &mut conversation, &said("Half a", "length"));
    assert_eq!(state.scheduled_task_retries, 2);
    let (_, step) = take_response(state, &mut conversation, &said("Half.", "length"));
    assert_eq!(step, ResponseStep::Finish);
}

#[test]
fn announcements_and_promises_are_sent_back() {
    let mut conversation = question();
    let mut state = LoopState::new(None, false, true);
    state.total_tool_calls = 1;
    let (_, step) = take_response(
        state,
        &mut conversation,
        &said("Let me fix that.", "end_turn"),
    );
    assert_eq!(step, ResponseStep::Retry(Nudge::Incomplete));

    let state = LoopState::new(None, false, false);
    let (state, step) = take_response(
        state,
        &mut conversation,
        &said("Here is the compiled content:", "end_turn"),
    );
    assert_eq!(step, ResponseStep::Retry(Nudge::EmptyPromise));
    assert_eq!(state.empty_promise_retries, 1);
}

#[test]
fn unclear_replies_are_classified() {
    let mut conversation = question();
    let state = LoopState::new(None, false, false);
    let reply = said("我现在就整理给你", "end_turn");
    let (state, step) = take_response(state, &mut conversation, &reply);
    assert_eq!(step, ResponseStep::Classify);
    assert_eq!(conversation.len(), 1);
    let (promised, step) = take_classification(state, &mut conversation, &reply, true);
    assert_eq!(step, ResponseStep::Retry(Nudge::EmptyPromise));
    assert_eq!(promised.empty_promise_retries, 1);
    assert_eq!(conversation.len(), 3);
    let (kept, step) = take_classification(state, &mut conversation, &reply, false);
    assert_eq!(step, ResponseStep::Finish);
    assert_eq!(kept, state);
}

#[test]
fn rounds_are_used_up() {
    let mut conversation = question();
    let mut state = LoopState::new(Some(2), false, false);
    for round in 0..2 {
        let (next, step) = begin_round(state, &mut conversation, false);
        assert_eq!(step, BeginStep::AskModel);
        let (next, _) = take_response(next, &mut conversation, &calls(&["read_file"]));
        let id = "id-read_file";
        state = take_tool_results(
            next,
            &mut conversation,
            vec![result(id, &format!("result {round}"), false)],
        );
    }
    let (_, step) = begin_round(state, &mut conversation, false);
    assert_eq!(step, BeginStep::AskWithoutTools);
    assert_eq!(text_of(conversation.last().unwrap()), EXHAUSTED_NUDGE);
    assert_eq!(last_answer(&conversation, "So it is."), "So it is.");
    assert_eq!(last_answer(&conversation, " "), "result 1");
    assert_eq!(last_answer(&question(), " "), " ");
}

#[test]
fn few_remaining_rounds_are_told() {
    let mut conversation = question();
    let mut state = LoopState::new(Some(10), false, false);
    state.iteration = 8;
    take_tool_results(state, &mut conversation, vec![result("i", "x", false)]);
    assert_eq!(conversation.len(), 3);
    assert!(text_of(&conversation[2]).starts_with("[SYSTEM: You have 2 tool call(s) remaining."));
    state.iteration = 7;
    take_tool_results(state, &mut conversation, vec![result("i", "x", false)]);
    assert_eq!(conversation.len(), 4);
}

#[test]
fn tools_are_offered_by_the_start_of_their_names() {
    let allow = vec!["memory_".to_string(), "read_file".to_string()];
    assert!(tool_is_offered("memory_get", Some(&allow)));
    assert!(!tool_is_offered("write_file", Some(&allow)));
    assert!(tool_is_offered("write_file", None));
    let names = vec![
        "write_file".to_string(),
        "read_file".to_string(),
        "memory_get".to_string(),
    ];
    assert_eq!(
        offered_tools(&names, Some(&allow)),
        vec!["read_file".to_string(), "memory_get".to_string()]
    );
    assert!(offered_tools(&names, Some(&[])).is_empty());
}

#[test]
fn names_of_models_are_parted_at_the_first_slash() {
    assert_eq!(
        provider_and_model("a/b/c"),
        Some(("a".to_string(), "b/c".to_string()))
    );
    assert_eq!(provider_and_model("abc"), None);
}

#[test]
fn calls_are_collected_in_order() {
    let response = calls(&["one", "two"]);
    let found = collect_tool_calls(&response.content);
    assert_eq!(found.len(), 2);
    assert_eq!(found[0].name, "one");
    assert_eq!(found[1].id, "id-two");
    assert_eq!(found[1].input, "{}");
    assert_eq!(copy_block(&response.content[0]), response.content[0]);
}
