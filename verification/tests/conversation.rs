use clawhive_core::orchestrator::messages::{
    build_messages_from_history, build_user_content, collect_recent_messages, format_time_gap,
    repair_tool_pairing, ContentBlock, LlmMessage, SessionMessage, Timestamp, NANOS_PER_HOUR,
    NANOS_PER_MINUTE, NANOS_PER_SECOND,
};
use clawhive_core::orchestrator::predicates::{
    detect_empty_promise_structural, detect_skill_install_intent, empty_promise_prompt,
    extract_source_after_prefix, filter_no_reply, has_install_skill_intent_prefix,
    history_message_limit, is_explicit_web_search_request, is_skill_install_intent_without_source,
    is_slow_latency_ms, lowered_announces_intent, lowered_claims_action, lowered_is_fabricated,
    lowered_is_incomplete, says_yes, session_reset_policy_for, should_inject_web_search_reminder,
    should_retry_fabricated_scheduled_response, should_retry_incomplete_scheduled_thought,
    upper_says_yes, EmptyPromiseVerdict, SessionResetPolicy,
};

fn user(content: &str) -> LlmMessage {
    LlmMessage::user(content.to_string())
}

fn assistant(content: &str) -> LlmMessage {
    LlmMessage::assistant(content.to_string())
}

fn assistant_with_tool_use(id: &str) -> LlmMessage {
    LlmMessage {
        role: "assistant".to_string(),
        content: vec![ContentBlock::ToolUse {
            id: id.to_string(),
            name: "read_file".to_string(),
            input: "{\"filePath\":\"/tmp/demo\"}".to_string(),
        }],
    }
}

fn user_with_tool_result(id: &str) -> LlmMessage {
    LlmMessage {
        role: "user".to_string(),
        content: vec![ContentBlock::ToolResult {
            tool_use_id: id.to_string(),
            content: "ok".to_string(),
            is_error: false,
        }],
    }
}

fn message_roles(messages: &[LlmMessage]) -> Vec<&str> {
    messages
        .iter()
        .map(|message| message.role.as_str())
        .collect()
}

#[test]
fn repair_tool_pairing_removes_unpaired_tool_use_messages() {
    let mut messages = vec![
        user("question"),
        assistant_with_tool_use("tool-1"),
        user("ordinary follow-up"),
    ];

    repair_tool_pairing(&mut messages);

    assert_eq!(messages.len(), 1);
    assert_eq!(messages[0].role, "user");
}

#[test]
fn repair_tool_pairing_removes_dangling_last_assistant_tool_use() {
    let mut messages = vec![user("question"), assistant_with_tool_use("tool-1")];

    repair_tool_pairing(&mut messages);

    assert_eq!(messages.len(), 1);
    assert_eq!(messages[0].role, "user");
}

#[test]
fn repair_tool_pairing_keeps_properly_paired_messages() {
    let expected = vec![
        user("question"),
        assistant_with_tool_use("tool-1"),
        user_with_tool_result("tool-1"),
    ];
    let mut messages = expected.clone();

    repair_tool_pairing(&mut messages);

    assert_eq!(message_roles(&messages), message_roles(&expected));
    assert_eq!(messages.len(), expected.len());
}

#[test]
fn repair_tool_pairing_handles_empty_messages() {
    let mut messages = Vec::new();

    repair_tool_pairing(&mut messages);

    assert!(messages.is_empty());
}

#[test]
fn repair_tool_pairing_ignores_messages_without_tool_use() {
    let expected = vec![user("question"), assistant("answer")];
    let mut messages = expected.clone();

    repair_tool_pairing(&mut messages);

    assert_eq!(message_roles(&messages), message_roles(&expected));
    assert_eq!(messages.len(), expected.len());
}

#[test]
fn history_message_limit_defaults_to_10() {
    assert_eq!(history_message_limit(None), 10);
}

#[test]
fn history_message_limit_converts_turns() {
    assert_eq!(history_message_limit(Some(7)), 14);
}

#[test]
fn format_time_gap_prefers_days_hours_minutes() {
    assert_eq!(format_time_gap(45 * NANOS_PER_MINUTE), "45 minute(s)");
    assert_eq!(format_time_gap(3 * NANOS_PER_HOUR), "3 hour(s)");
    assert_eq!(format_time_gap(49 * NANOS_PER_HOUR), "2 day(s)");
}

fn said(role: &str, content: &str, secs: i64) -> SessionMessage {
    SessionMessage {
        role: role.to_string(),
        content: content.to_string(),
        timestamp: Some(Timestamp { secs, nanos: 0 }),
    }
}

#[test]
fn build_history_messages_inserts_inactivity_markers() {
    // 2026-01-01 10:00, 10:40 and 10:50.
    let ten: i64 = 1_767_261_600;
    let history = vec![
        said("user", "first", ten),
        said("assistant", "second", ten + 40 * 60),
        said("user", "third", ten + 50 * 60),
    ];

    let messages = build_messages_from_history(&history);

    assert_eq!(messages.len(), 4);
    assert_eq!(messages[0].role, "user");
    assert_eq!(messages[1].role, "user");
    assert_eq!(
        messages[1].content,
        vec![ContentBlock::Text {
            text: "[40 minute(s) of inactivity has passed since the last message]".to_string()
        }]
    );
    assert_eq!(messages[2].role, "assistant");
    assert_eq!(messages[3].role, "user");
}

#[test]
fn slow_latency_threshold_detects_warn_boundary() {
    assert!(!is_slow_latency_ms(9_999, 10_000));
    assert!(is_slow_latency_ms(10_000, 10_000));
    assert!(is_slow_latency_ms(25_000, 10_000));
}

#[test]
fn explicit_web_search_request_detection() {
    assert!(is_explicit_web_search_request(
        "请使用 web_search 工具搜索 OpenAI 最新新闻"
    ));
    assert!(is_explicit_web_search_request(
        "please use web search tool for this"
    ));
    assert!(!is_explicit_web_search_request("你觉得这个功能怎么样"));
}

#[test]
fn web_search_reminder_injection_predicate() {
    assert!(should_inject_web_search_reminder(true, false, false, 0));
    assert!(!should_inject_web_search_reminder(true, true, false, 0));
    assert!(!should_inject_web_search_reminder(false, false, false, 0));
    assert!(!should_inject_web_search_reminder(true, false, true, 0));
    assert!(!should_inject_web_search_reminder(true, false, false, 1));
}

#[test]
fn scheduled_retry_only_when_claiming_execution_without_tools() {
    assert!(should_retry_fabricated_scheduled_response(
        true,
        0,
        0,
        0,
        "I executed all steps and saved the file.",
    ));

    assert!(!should_retry_fabricated_scheduled_response(
        true,
        0,
        0,
        0,
        "以下是今日技术摘要：...",
    ));

    assert!(!should_retry_fabricated_scheduled_response(
        true,
        0,
        1,
        0,
        "I executed all steps and saved the file.",
    ));
}

#[test]
fn fabricated_response_skipped_in_conversation() {
    // Conversations have a human in the loop — never retry for fabrication
    assert!(!should_retry_fabricated_scheduled_response(
        false,
        0,
        0,
        0,
        "I created the file and saved it.",
    ));
    assert!(!should_retry_fabricated_scheduled_response(
        false,
        0,
        0,
        0,
        "I updated the config.",
    ));
}

#[test]
fn fabricated_response_scheduled_still_allows_two_retries() {
    assert!(should_retry_fabricated_scheduled_response(
        true,
        0,
        0,
        0,
        "已创建文件",
    ));
    assert!(should_retry_fabricated_scheduled_response(
        true,
        1,
        0,
        0,
        "已创建文件",
    ));
    assert!(!should_retry_fabricated_scheduled_response(
        true,
        2,
        0,
        0,
        "已创建文件",
    ));
}

#[test]
fn incomplete_thought_detected_in_conversation() {
    assert!(should_retry_incomplete_scheduled_thought(
        false,
        0,
        1,
        "让我来处理这个问题",
    ));
}

#[test]
fn incomplete_thought_conversation_max_one_retry() {
    assert!(should_retry_incomplete_scheduled_thought(
        false,
        0,
        1,
        "Let me fix that.",
    ));
    assert!(!should_retry_incomplete_scheduled_thought(
        false,
        1,
        1,
        "Let me fix that.",
    ));
}

#[test]
fn incomplete_thought_scheduled_still_allows_two_retries() {
    assert!(should_retry_incomplete_scheduled_thought(
        true,
        0,
        1,
        "I will create the file.",
    ));
    assert!(should_retry_incomplete_scheduled_thought(
        true,
        1,
        1,
        "I will create the file.",
    ));
    assert!(!should_retry_incomplete_scheduled_thought(
        true,
        2,
        1,
        "I will create the file.",
    ));
}

#[test]
fn empty_promise_structural_detects_colon_endings() {
    assert_eq!(
        detect_empty_promise_structural(0, 0, "好，让我把所有内容整合起来："),
        EmptyPromiseVerdict::Evident,
    );
    assert_eq!(
        detect_empty_promise_structural(0, 0, "Here is the compiled content:"),
        EmptyPromiseVerdict::Evident,
    );
    assert_eq!(
        detect_empty_promise_structural(0, 0, "Let me compile everything..."),
        EmptyPromiseVerdict::Evident,
    );
    assert_eq!(
        detect_empty_promise_structural(0, 0, "整理如下——"),
        EmptyPromiseVerdict::Evident,
    );
}

#[test]
fn empty_promise_structural_skips_long_responses() {
    let long_response = "x".repeat(500);
    assert_eq!(
        detect_empty_promise_structural(0, 0, &format!("{long_response}:")),
        EmptyPromiseVerdict::No,
    );
}

#[test]
fn empty_promise_structural_skips_when_tools_called() {
    assert_eq!(
        detect_empty_promise_structural(0, 1, "好，让我整合："),
        EmptyPromiseVerdict::No,
    );
}

#[test]
fn empty_promise_structural_still_detects_after_first_retry() {
    assert_eq!(
        detect_empty_promise_structural(1, 0, "好，让我整合："),
        EmptyPromiseVerdict::Evident,
    );
}

#[test]
fn empty_promise_structural_skips_after_max_retries() {
    assert_eq!(
        detect_empty_promise_structural(2, 0, "好，让我整合："),
        EmptyPromiseVerdict::No,
    );
}

#[test]
fn empty_promise_structural_inconclusive_for_short_no_ending_punctuation() {
    assert_eq!(
        detect_empty_promise_structural(0, 0, "我现在就整理给你"),
        EmptyPromiseVerdict::Inconclusive,
    );
    assert_eq!(
        detect_empty_promise_structural(0, 0, "Sure, I'll do that right away"),
        EmptyPromiseVerdict::Inconclusive,
    );
}

#[test]
fn empty_promise_structural_no_for_complete_sentences() {
    assert_eq!(
        detect_empty_promise_structural(0, 0, "Hello from mock!"),
        EmptyPromiseVerdict::No,
    );
    assert_eq!(
        detect_empty_promise_structural(0, 0, "The answer is 42."),
        EmptyPromiseVerdict::No,
    );
    assert_eq!(
        detect_empty_promise_structural(0, 0, "你确定吗？"),
        EmptyPromiseVerdict::No,
    );
    assert_eq!(
        detect_empty_promise_structural(0, 0, "没问题。"),
        EmptyPromiseVerdict::No,
    );
}

#[test]
fn gaps_below_a_minute_and_backwards() {
    assert_eq!(format_time_gap(59 * NANOS_PER_SECOND), "0 minute(s)");
    assert_eq!(format_time_gap(23 * NANOS_PER_HOUR), "23 hour(s)");
    let later = Timestamp { secs: 10, nanos: 5 };
    let earlier = Timestamp {
        secs: 9,
        nanos: 999_999_999,
    };
    assert_eq!(later.since(earlier), 6);
    assert_eq!(earlier.since(later), -6);
}

#[test]
fn a_gap_is_marked_from_thirty_minutes_on() {
    let history = [said("user", "a", 0), said("assistant", "b", 30 * 60)];
    assert_eq!(build_messages_from_history(&history).len(), 3);
    let history = [said("user", "a", 0), said("assistant", "b", 30 * 60 - 1)];
    assert_eq!(build_messages_from_history(&history).len(), 2);
    let mut undated = said("assistant", "b", 0);
    undated.timestamp = None;
    // A message without a time takes no part in a gap.
    let history = [said("user", "a", 0), undated, said("user", "c", 9_000)];
    assert_eq!(build_messages_from_history(&history).len(), 3);
}

#[test]
fn repair_restores_the_pairing_of_a_prefix() {
    let mut messages = vec![
        user("q"),
        assistant_with_tool_use("1"),
        user_with_tool_result("1"),
        assistant_with_tool_use("2"),
        user_with_tool_result("other"),
    ];
    let all = messages.clone();
    repair_tool_pairing(&mut messages);
    assert_eq!(messages.len(), 3);
    assert_eq!(message_roles(&messages), message_roles(&all[..3]));
}

#[test]
fn recent_messages_are_their_texts() {
    let messages = vec![
        user("one"),
        assistant_with_tool_use("1"),
        user_with_tool_result("1"),
        assistant("two"),
        user("three"),
    ];
    let recent = collect_recent_messages(&messages, 2);
    assert_eq!(recent.len(), 2);
    assert_eq!(recent[0].role, "assistant");
    assert_eq!(recent[0].content, "two");
    assert_eq!(recent[1].content, "three");
}

#[test]
fn user_content_puts_the_text_first() {
    let image = ContentBlock::Image {
        data: "d".to_string(),
        media_type: "image/png".to_string(),
    };
    let content = build_user_content("look".to_string(), vec![image.clone()]);
    assert_eq!(content.len(), 2);
    assert_eq!(
        content[0],
        ContentBlock::Text {
            text: "look".to_string()
        }
    );
    assert_eq!(content[1], image);
}

#[test]
fn marks_of_silence_are_taken_off() {
    assert_eq!(filter_no_reply("HEARTBEAT_OK"), "");
    assert_eq!(filter_no_reply("NO_REPLY"), "");
    assert_eq!(filter_no_reply("NO_REPLY done"), "done");
    assert_eq!(filter_no_reply("done NO_REPLY"), "done");
    assert_eq!(filter_no_reply("HEARTBEAT_OK fine"), "fine");
    assert_eq!(filter_no_reply("  hello "), "hello");
    assert_eq!(filter_no_reply("say NO_REPLY twice"), "say NO_REPLY twice");
}

#[test]
fn install_requests_name_their_source() {
    assert_eq!(
        detect_skill_install_intent("install skill from https://x.test/a"),
        Some("https://x.test/a".to_string())
    );
    assert_eq!(
        detect_skill_install_intent("安装技能 ./skills/demo"),
        Some("./skills/demo".to_string())
    );
    assert_eq!(detect_skill_install_intent("what is a skill"), None);
    assert!(has_install_skill_intent_prefix("install skill from"));
    assert!(is_skill_install_intent_without_source("install skill from"));
    assert!(!is_skill_install_intent_without_source(
        "install skill from https://x.test/a"
    ));
    let chars: Vec<char> = "ab: 'c d'".chars().collect();
    assert_eq!(extract_source_after_prefix(&chars, chars.len()), None);
}

#[test]
fn lowered_phrases_are_looked_for_as_they_stand() {
    assert!(lowered_claims_action("i executed it"));
    assert!(!lowered_claims_action("I EXECUTED IT"));
    // The public predicate lowers first.
    assert!(should_retry_fabricated_scheduled_response(
        true,
        0,
        0,
        0,
        "I EXECUTED IT"
    ));
    assert!(lowered_is_fabricated(true, 0, 0, 0, "i executed it"));
    assert!(!lowered_is_fabricated(true, 0, 0, 1, "i executed it"));
    assert!(lowered_announces_intent("let me look"));
    assert!(!lowered_announces_intent("LET ME LOOK"));
    assert!(should_retry_incomplete_scheduled_thought(
        true,
        0,
        1,
        "LET ME LOOK"
    ));
    assert!(lowered_is_incomplete(true, 0, 1, "LET ME LOOK", "let me look"));
}

#[test]
fn long_replies_are_never_unfinished_thoughts() {
    let long = format!("let me {}", "x".repeat(600));
    assert!(!should_retry_incomplete_scheduled_thought(true, 0, 1, &long));
}

#[test]
fn the_classifier_says_yes_in_any_case() {
    assert!(says_yes("yes"));
    assert!(says_yes(" Yes, it is"));
    assert!(!says_yes("no"));
    assert!(upper_says_yes("YES"));
    assert!(!upper_says_yes("yes"));
    assert!(empty_promise_prompt("I will do it").contains("I will do it"));
}

#[test]
fn a_reset_policy_of_the_agent_comes_first() {
    let own = SessionResetPolicy {
        idle_minutes: Some(5),
        daily_at_hour: None,
    };
    let general = SessionResetPolicy {
        idle_minutes: Some(30),
        daily_at_hour: Some(4),
    };
    let both = SessionResetPolicy {
        idle_minutes: Some(5),
        daily_at_hour: Some(4),
    };
    assert_eq!(session_reset_policy_for(Some(own), general), both);
    assert_eq!(session_reset_policy_for(None, general), general);
}
